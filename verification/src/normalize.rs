//! The normalizer: from a grammar expression and the definitions of its rules
//! to a flat rule table.

use indexmap::IndexSet;
use vstd::prelude::*;
use vstd::string::StringExecFns;

use crate::grammar::Definitions;
use crate::grammar::Rule;
use crate::grammar::RuleView;
use crate::grammar::rule_views;
use crate::grammar_dsl::GrammarNode;
use crate::grammar_dsl::GrammarView;
use crate::grammar_dsl::NormalizedNode;
use crate::grammar_dsl::NormalizedView;
use crate::grammar_dsl::lemma_grammar_views;
use crate::grammar_dsl::lemma_normalized_views;
use crate::grammar_dsl::normalized_views;

verus! {

/// `indexmap::IndexSet`: a set that keeps its items in the order in which
/// they were inserted.
#[verifier::external_type_specification]
#[verifier::external_body]
#[verifier::reject_recursive_types(T)]
#[verifier::reject_recursive_types(S)]
pub struct ExIndexSet<T, S>(IndexSet<T, S>);

/// The items of an index set, in the order of their indices.
pub uninterp spec fn key_order(keys: IndexSet<usize>) -> Seq<usize>;

/// A set without items.
///
/// Stands for `IndexSet::new`.
#[verifier::external_body]
fn keys_new() -> (keys: IndexSet<usize>)
    ensures
        key_order(keys) == Seq::<usize>::empty(),
{
    IndexSet::new()
}

/// The index of `key`, if the set holds it.
///
/// Stands for `IndexSet::get_index_of`: the index it returns is that of an
/// item equal to `key`, and it returns none where no item is.
#[verifier::external_body]
fn keys_index_of(keys: &IndexSet<usize>, key: usize) -> (at: Option<usize>)
    ensures
        match at {
            Some(i) => i < key_order(*keys).len() && key_order(*keys)[i as int] == key,
            None => !key_order(*keys).contains(key),
        },
{
    keys.get_index_of(&key)
}

/// Inserts `key` and tells whether it was new.
///
/// Stands for `IndexSet::insert`: a key that the set holds already changes
/// nothing, and a new one goes behind the last item.
#[verifier::external_body]
fn keys_insert(keys: &mut IndexSet<usize>, key: usize) -> (fresh: bool)
    ensures
        fresh == !key_order(*old(keys)).contains(key),
        fresh ==> key_order(*final(keys)) == key_order(*old(keys)).push(key),
        !fresh ==> key_order(*final(keys)) == key_order(*old(keys)),
{
    keys.insert(key)
}

/// A rule table under construction: its rules, the handles met so far in the
/// order in which they were met, and for each of them the index of its rule.
pub struct TableView {
    pub rules: Seq<RuleView>,
    pub handles: Seq<usize>,
    pub slots: Seq<int>,
}

impl TableView {
    /// The table with no rule.
    pub open spec fn empty() -> TableView {
        TableView { rules: Seq::empty(), handles: Seq::empty(), slots: Seq::empty() }
    }

    /// The table with one more rule, which belongs to no handle.
    pub open spec fn push(self, rule: RuleView) -> TableView {
        TableView { rules: self.rules.push(rule), handles: self.handles, slots: self.slots }
    }

    /// The table with one more rule, unfinished, for `handle`.
    pub open spec fn reserve(self, handle: usize, name: Seq<char>) -> TableView {
        TableView {
            rules: self.rules.push(pending(name)),
            handles: self.handles.push(handle),
            slots: self.slots.push(self.rules.len() as int),
        }
    }

    /// The table with the rule at `index` replaced.
    pub open spec fn fill(self, index: int, rule: RuleView) -> TableView {
        TableView { rules: self.rules.update(index, rule), handles: self.handles, slots: self.slots }
    }

    /// The index of the rule of `handle`.
    pub open spec fn slot_of(self, handle: usize) -> int {
        self.slots[self.handles.index_of(handle)]
    }
}

/// The empty sequence, which matches the empty text.
pub open spec fn epsilon() -> NormalizedView {
    NormalizedView::Sequence(Seq::empty())
}

/// The body of the rule at `index` that repeats `item` any number of times:
/// `item` and then the rule again, or nothing.
pub open spec fn repetition(item: NormalizedView, index: int) -> NormalizedView {
    NormalizedView::Choice(
        seq![
            NormalizedView::Sequence(seq![item, NormalizedView::Reference(index)]),
            epsilon(),
        ],
    )
}

/// An unfinished rule of the given name.
pub open spec fn pending(name: Seq<char>) -> RuleView {
    RuleView { name, node: NormalizedView::Placeholder, is_recursive: false, is_nullable: false }
}

/// The name of the rule made for the items of a repetition in `owner`.
pub open spec fn item_name(owner: Seq<char>) -> Seq<char> {
    owner + "_item"@
}

/// The name of the rule made for a repetition in `owner`.
pub open spec fn many_name(owner: Seq<char>) -> Seq<char> {
    owner + "_many"@
}

/// The normal form of `node`, whether normalizing it met a rule that was
/// still under construction, and the table afterwards.
///
/// `owner` is the name of the rule that `node` belongs to, and `depth` is how
/// many definitions may still be entered inside one another: with none left,
/// a rule is treated like one that has no definition, which is given the
/// empty choice for a body.
pub open spec fn norm(
    node: GrammarView,
    table: TableView,
    defs: Map<usize, GrammarView>,
    owner: Seq<char>,
    depth: nat,
) -> (NormalizedView, bool, TableView)
    decreases depth, node, 0nat,
{
    match node {
        GrammarView::Terminal(m) => (NormalizedView::Terminal(m), false, table),
        GrammarView::Choice(nodes) => {
            let (parts, rec, after) = norm_from(nodes, 0, table, defs, owner, depth);
            (NormalizedView::Choice(parts), rec, after)
        },
        GrammarView::Sequence(nodes) => {
            let (parts, rec, after) = norm_from(nodes, 0, table, defs, owner, depth);
            (NormalizedView::Sequence(parts), rec, after)
        },
        GrammarView::Optional(inner) => {
            let (part, rec, after) = norm(*inner, table, defs, owner, depth);
            (NormalizedView::Choice(seq![part, epsilon()]), rec, after)
        },
        GrammarView::Reference(handle, name) => {
            if table.handles.contains(handle) {
                let index = table.slot_of(handle);
                (NormalizedView::Reference(index), table.rules[index].node is Placeholder, table)
            } else {
                let index = table.rules.len() as int;
                let reserved = table.reserve(handle, name);
                if defs.contains_key(handle) && depth > 0 {
                    let (body, rec, after) = norm(
                        defs[handle],
                        reserved,
                        defs,
                        name,
                        (depth - 1) as nat,
                    );
                    let rule = RuleView { name, node: body, is_recursive: rec, is_nullable: false };
                    (NormalizedView::Reference(index), rec, after.fill(index, rule))
                } else {
                    let rule = RuleView {
                        name,
                        node: NormalizedView::Choice(Seq::empty()),
                        is_recursive: false,
                        is_nullable: false,
                    };
                    (NormalizedView::Reference(index), false, reserved.fill(index, rule))
                }
            }
        },
        GrammarView::Many(inner) => {
            let (item, rec, after) = norm(*inner, table, defs, owner, depth);
            let index = after.rules.len() as int;
            let rule = RuleView {
                name: many_name(owner),
                node: repetition(item, index),
                is_recursive: true,
                is_nullable: false,
            };
            (NormalizedView::Reference(index), rec, after.push(rule))
        },
        GrammarView::OneOrMore(inner) => {
            let (item, rec, after) = norm(*inner, table, defs, owner, depth);
            let first = after.rules.len() as int;
            let rest = first + 1;
            let item_rule = RuleView {
                name: item_name(owner),
                node: item,
                is_recursive: rec,
                is_nullable: false,
            };
            let rest_rule = RuleView {
                name: many_name(owner),
                node: repetition(NormalizedView::Reference(first), rest),
                is_recursive: true,
                is_nullable: false,
            };
            (
                NormalizedView::Sequence(
                    seq![
                        NormalizedView::Reference(first),
                        NormalizedView::Reference(rest),
                    ],
                ),
                rec,
                after.push(item_rule).push(rest_rule),
            )
        },
    }
}

/// The normal forms of `nodes` from the `k`-th on, in order, each normalized
/// in the table that the one before it left.
pub open spec fn norm_from(
    nodes: Seq<GrammarView>,
    k: int,
    table: TableView,
    defs: Map<usize, GrammarView>,
    owner: Seq<char>,
    depth: nat,
) -> (Seq<NormalizedView>, bool, TableView)
    decreases depth, nodes, nodes.len() - k,
{
    if 0 <= k < nodes.len() {
        let (part, rec, after) = norm(nodes[k], table, defs, owner, depth);
        let (parts, more, last) = norm_from(nodes, k + 1, after, defs, owner, depth);
        (seq![part] + parts, rec || more, last)
    } else {
        (Seq::empty(), false, table)
    }
}

impl TableView {
    /// Every handle has the index of a rule of its own, no handle stands
    /// twice, and every reference in a rule is the index of a rule.
    pub open spec fn wf(self) -> bool {
        &&& self.handles.len() == self.slots.len()
        &&& self.handles.no_duplicates()
        &&& self.slots.no_duplicates()
        &&& forall|k: int| 0 <= k < self.slots.len() ==> 0 <= #[trigger] self.slots[k] < self.rules.len()
        &&& forall|i: int|
            0 <= i < self.rules.len() ==> (#[trigger] self.rules[i]).node.refs_below(
                self.rules.len() as int,
            )
    }

    /// Whether `later` is this table with rules and handles added behind it
    /// and nothing else changed.
    pub open spec fn extends_to(self, later: TableView) -> bool {
        &&& self.rules.len() <= later.rules.len()
        &&& self.handles.len() <= later.handles.len()
        &&& self.slots.len() <= later.slots.len()
        &&& forall|i: int| 0 <= i < self.rules.len() ==> #[trigger] later.rules[i] == self.rules[i]
        &&& forall|k: int| 0 <= k < self.handles.len() ==> #[trigger] later.handles[k] == self.handles[k]
        &&& forall|k: int| 0 <= k < self.slots.len() ==> #[trigger] later.slots[k] == self.slots[k]
    }

    /// Whether `later` is this table with rules and handles added behind it
    /// and nothing else changed, every added rule being finished.
    pub open spec fn grows_to(self, later: TableView) -> bool {
        &&& self.extends_to(later)
        &&& forall|i: int|
            self.rules.len() <= i < later.rules.len() ==> (#[trigger] later.rules[i]).node.complete()
    }
}

/// References below a bound are below every larger bound.
pub proof fn lemma_refs_below_grows(node: NormalizedView, small: int, large: int)
    requires
        node.refs_below(small),
        small <= large,
    ensures
        node.refs_below(large),
    decreases node,
{
    match node {
        NormalizedView::Choice(nodes) => {
            assert forall|i: int| 0 <= i < nodes.len() implies (#[trigger] nodes[i]).refs_below(
                large,
            ) by {
                lemma_refs_below_grows(nodes[i], small, large);
            }
        },
        NormalizedView::Sequence(nodes) => {
            assert forall|i: int| 0 <= i < nodes.len() implies (#[trigger] nodes[i]).refs_below(
                large,
            ) by {
                lemma_refs_below_grows(nodes[i], small, large);
            }
        },
        _ => {},
    }
}

/// A well-formed table stays well-formed when a rule is put behind it whose
/// references are in range.
proof fn lemma_push_wf(table: TableView, rule: RuleView)
    requires
        table.wf(),
        rule.node.refs_below(table.rules.len() as int + 1),
    ensures
        table.push(rule).wf(),
{
    let after = table.push(rule);
    assert forall|i: int| 0 <= i < after.rules.len() implies (#[trigger] after.rules[i]).node.refs_below(
        after.rules.len() as int,
    ) by {
        if i < table.rules.len() {
            lemma_refs_below_grows(
                table.rules[i].node,
                table.rules.len() as int,
                after.rules.len() as int,
            );
        }
    }
}

/// A well-formed table stays well-formed when a rule is reserved for a handle
/// that is new to it.
proof fn lemma_reserve_wf(table: TableView, handle: usize, name: Seq<char>)
    requires
        table.wf(),
        !table.handles.contains(handle),
    ensures
        table.reserve(handle, name).wf(),
{
    let after = table.reserve(handle, name);
    lemma_push_wf(table, pending(name));
    assert forall|i: int, j: int|
        0 <= i < after.handles.len() && 0 <= j < after.handles.len() && i != j implies after.handles[i]
        != after.handles[j] by {
        if i < table.handles.len() && j < table.handles.len() {
        } else if i < table.handles.len() {
            assert(table.handles.contains(table.handles[i]));
        } else {
            assert(table.handles.contains(table.handles[j]));
        }
    }
    assert forall|k: int| 0 <= k < after.slots.len() implies 0 <= #[trigger] after.slots[k]
        < after.rules.len() by {
        if k < table.slots.len() {
            assert(after.slots[k] == table.slots[k]);
        }
    }
}

/// What normalizing leaves of the table: it stays well-formed, what it held
/// is unchanged, every rule added is finished, and the normal form holds no
/// placeholder and refers to rules of the table only.
pub proof fn lemma_norm_table(
    node: GrammarView,
    table: TableView,
    defs: Map<usize, GrammarView>,
    owner: Seq<char>,
    depth: nat,
)
    requires
        table.wf(),
    ensures
        norm(node, table, defs, owner, depth).2.wf(),
        table.grows_to(norm(node, table, defs, owner, depth).2),
        norm(node, table, defs, owner, depth).0.complete(),
        norm(node, table, defs, owner, depth).0.refs_below(
            norm(node, table, defs, owner, depth).2.rules.len() as int,
        ),
    decreases depth, node, 0nat,
{
    reveal_with_fuel(NormalizedView::complete, 3);
    reveal_with_fuel(NormalizedView::refs_below, 3);
    let result = norm(node, table, defs, owner, depth);
    match node {
        GrammarView::Terminal(m) => {},
        GrammarView::Choice(nodes) => {
            lemma_norm_from_table(nodes, 0, table, defs, owner, depth);
        },
        GrammarView::Sequence(nodes) => {
            lemma_norm_from_table(nodes, 0, table, defs, owner, depth);
        },
        GrammarView::Optional(inner) => {
            lemma_norm_table(*inner, table, defs, owner, depth);
            let part = norm(*inner, table, defs, owner, depth).0;
            let parts = seq![part, epsilon()];
            assert(parts[0] == part && parts[1] == epsilon());
        },
        GrammarView::Reference(handle, name) => {
            if table.handles.contains(handle) {
                let k = table.handles.index_of(handle);
                assert(0 <= table.slots[k] < table.rules.len());
            } else {
                let index = table.rules.len() as int;
                let reserved = table.reserve(handle, name);
                lemma_reserve_wf(table, handle, name);
                if defs.contains_key(handle) && depth > 0 {
                    lemma_norm_table(defs[handle], reserved, defs, name, (depth - 1) as nat);
                    let sub = norm(defs[handle], reserved, defs, name, (depth - 1) as nat);
                    let after = sub.2;
                    let rule = RuleView {
                        name,
                        node: sub.0,
                        is_recursive: sub.1,
                        is_nullable: false,
                    };
                    let filled = after.fill(index, rule);
                    assert(result.2 == filled);
                    assert(after.rules[index] == reserved.rules[index]);
                    assert forall|i: int| 0 <= i < filled.rules.len() implies (
                    #[trigger] filled.rules[i]).node.refs_below(filled.rules.len() as int) by {
                        if i != index {
                            assert(filled.rules[i] == after.rules[i]);
                        }
                    }
                    assert forall|i: int| 0 <= i < table.rules.len() implies #[trigger] filled.rules[i]
                        == table.rules[i] by {
                        assert(after.rules[i] == reserved.rules[i]);
                    }
                    assert forall|k: int| 0 <= k < table.handles.len() implies #[trigger] filled.handles[k]
                        == table.handles[k] by {
                        assert(after.handles[k] == reserved.handles[k]);
                    }
                    assert forall|k: int| 0 <= k < table.slots.len() implies #[trigger] filled.slots[k]
                        == table.slots[k] by {
                        assert(after.slots[k] == reserved.slots[k]);
                    }
                    assert forall|i: int| table.rules.len() <= i < filled.rules.len() implies (
                    #[trigger] filled.rules[i]).node.complete() by {
                        if i != index {
                            assert(filled.rules[i] == after.rules[i]);
                        }
                    }
                } else {
                    let rule = RuleView {
                        name,
                        node: NormalizedView::Choice(Seq::empty()),
                        is_recursive: false,
                        is_nullable: false,
                    };
                    let filled = reserved.fill(index, rule);
                    assert(result.2 == filled);
                    assert forall|i: int| 0 <= i < filled.rules.len() implies (
                    #[trigger] filled.rules[i]).node.refs_below(filled.rules.len() as int) by {
                        if i != index {
                            assert(filled.rules[i] == reserved.rules[i]);
                        }
                    }
                    assert forall|i: int| 0 <= i < table.rules.len() implies #[trigger] filled.rules[i]
                        == table.rules[i] by {
                        assert(reserved.rules[i] == table.rules[i]);
                    }
                }
            }
        },
        GrammarView::Many(inner) => {
            lemma_norm_table(*inner, table, defs, owner, depth);
            let sub = norm(*inner, table, defs, owner, depth);
            let after = sub.2;
            let index = after.rules.len() as int;
            let rule = RuleView {
                name: many_name(owner),
                node: repetition(sub.0, index),
                is_recursive: true,
                is_nullable: false,
            };
            lemma_repetition(sub.0, index);
            lemma_push_wf(after, rule);
            let last = after.push(rule);
            assert(result.2 == last);
            assert forall|i: int| 0 <= i < table.rules.len() implies #[trigger] last.rules[i]
                == table.rules[i] by {
                assert(after.rules[i] == table.rules[i]);
            }
            assert forall|i: int| table.rules.len() <= i < last.rules.len() implies (
            #[trigger] last.rules[i]).node.complete() by {
                if i < after.rules.len() {
                    assert(last.rules[i] == after.rules[i]);
                }
            }
        },
        GrammarView::OneOrMore(inner) => {
            lemma_norm_table(*inner, table, defs, owner, depth);
            let sub = norm(*inner, table, defs, owner, depth);
            let after = sub.2;
            let first = after.rules.len() as int;
            let rest = first + 1;
            let item_rule = RuleView {
                name: item_name(owner),
                node: sub.0,
                is_recursive: sub.1,
                is_nullable: false,
            };
            let rest_rule = RuleView {
                name: many_name(owner),
                node: repetition(NormalizedView::Reference(first), rest),
                is_recursive: true,
                is_nullable: false,
            };
            lemma_refs_below_grows(sub.0, first, first + 1);
            lemma_push_wf(after, item_rule);
            let middle = after.push(item_rule);
            lemma_repetition(NormalizedView::Reference(first), rest);
            lemma_push_wf(middle, rest_rule);
            let last = middle.push(rest_rule);
            assert(result.2 == last);
            assert forall|i: int| 0 <= i < table.rules.len() implies #[trigger] last.rules[i]
                == table.rules[i] by {
                assert(after.rules[i] == table.rules[i]);
            }
            assert forall|i: int| table.rules.len() <= i < last.rules.len() implies (
            #[trigger] last.rules[i]).node.complete() by {
                if i < after.rules.len() {
                    assert(last.rules[i] == after.rules[i]);
                }
            }
            let pair = seq![NormalizedView::Reference(first), NormalizedView::Reference(rest)];
            assert(pair[0] == NormalizedView::Reference(first));
            assert(pair[1] == NormalizedView::Reference(rest));
        },
    }
}

/// The body of a repetition is finished where its item is, and refers below
/// `index + 1` where its item does.
proof fn lemma_repetition(item: NormalizedView, index: int)
    requires
        index >= 0,
    ensures
        item.complete() ==> repetition(item, index).complete(),
        item.refs_below(index) ==> repetition(item, index).refs_below(index + 1),
{
    reveal_with_fuel(NormalizedView::complete, 3);
    reveal_with_fuel(NormalizedView::refs_below, 3);
    let inner = seq![item, NormalizedView::Reference(index)];
    let outer = seq![NormalizedView::Sequence(inner), epsilon()];
    assert(inner[0] == item && inner[1] == NormalizedView::Reference(index));
    assert(outer[0] == NormalizedView::Sequence(inner) && outer[1] == epsilon());
    if item.refs_below(index) {
        lemma_refs_below_grows(item, index, index + 1);
        assert(NormalizedView::Sequence(inner).refs_below(index + 1));
    }
    if item.complete() {
        assert(NormalizedView::Sequence(inner).complete());
    }
}

/// What normalizing a sequence of expressions leaves of the table, as
/// `lemma_norm_table` says it of one.
pub proof fn lemma_norm_from_table(
    nodes: Seq<GrammarView>,
    k: int,
    table: TableView,
    defs: Map<usize, GrammarView>,
    owner: Seq<char>,
    depth: nat,
)
    requires
        table.wf(),
        0 <= k,
    ensures
        norm_from(nodes, k, table, defs, owner, depth).2.wf(),
        table.grows_to(norm_from(nodes, k, table, defs, owner, depth).2),
        norm_from(nodes, k, table, defs, owner, depth).0.len() == (if k < nodes.len() {
            nodes.len() - k
        } else {
            0
        }),
        forall|i: int|
            0 <= i < norm_from(nodes, k, table, defs, owner, depth).0.len() ==> (
            #[trigger] norm_from(nodes, k, table, defs, owner, depth).0[i]).complete(),
        forall|i: int|
            0 <= i < norm_from(nodes, k, table, defs, owner, depth).0.len() ==> (
            #[trigger] norm_from(nodes, k, table, defs, owner, depth).0[i]).refs_below(
                norm_from(nodes, k, table, defs, owner, depth).2.rules.len() as int,
            ),
    decreases depth, nodes, nodes.len() - k,
{
    if k < nodes.len() {
        lemma_norm_table(nodes[k], table, defs, owner, depth);
        let head = norm(nodes[k], table, defs, owner, depth);
        lemma_norm_from_table(nodes, k + 1, head.2, defs, owner, depth);
        let tail = norm_from(nodes, k + 1, head.2, defs, owner, depth);
        let all = norm_from(nodes, k, table, defs, owner, depth);
        assert(all.0 == seq![head.0] + tail.0);
        assert(all.2 == tail.2);
        lemma_refs_below_grows(head.0, head.2.rules.len() as int, tail.2.rules.len() as int);
        assert forall|i: int| 0 <= i < all.0.len() implies (#[trigger] all.0[i]).complete() by {
            if i > 0 {
                assert(all.0[i] == tail.0[i - 1]);
            }
        }
        assert forall|i: int| 0 <= i < all.0.len() implies (#[trigger] all.0[i]).refs_below(
            all.2.rules.len() as int,
        ) by {
            if i > 0 {
                assert(all.0[i] == tail.0[i - 1]);
            }
        }
        assert forall|i: int| 0 <= i < table.rules.len() implies #[trigger] all.2.rules[i]
            == table.rules[i] by {
            assert(head.2.rules[i] == table.rules[i]);
        }
        assert forall|j: int| 0 <= j < table.handles.len() implies #[trigger] all.2.handles[j]
            == table.handles[j] by {
            assert(head.2.handles[j] == table.handles[j]);
        }
        assert forall|j: int| 0 <= j < table.slots.len() implies #[trigger] all.2.slots[j]
            == table.slots[j] by {
            assert(head.2.slots[j] == table.slots[j]);
        }
        assert forall|i: int| table.rules.len() <= i < all.2.rules.len() implies (
        #[trigger] all.2.rules[i]).node.complete() by {
            if i < head.2.rules.len() {
                assert(all.2.rules[i] == head.2.rules[i]);
            }
        }
    }
}

/// The handles met so far, in the order in which they were met, and for each
/// the index of its rule.
pub struct HandleIndex {
    handles: IndexSet<usize>,
    slots: Vec<usize>,
}

impl HandleIndex {
    /// The handles, in the order in which they were met.
    pub closed spec fn handles(&self) -> Seq<usize> {
        key_order(self.handles)
    }

    /// The index of the rule of each handle.
    pub closed spec fn slots(&self) -> Seq<int> {
        Seq::new(self.slots@.len(), |k: int| self.slots@[k] as int)
    }

    /// Every handle has an index, and no handle stands twice.
    pub open spec fn wf(&self) -> bool {
        &&& self.handles().len() == self.slots().len()
        &&& self.handles().no_duplicates()
    }

    /// The index of the rule of `handle`.
    pub open spec fn slot_of(&self, handle: usize) -> int {
        self.slots()[self.handles().index_of(handle)]
    }

    /// No handles.
    pub fn new() -> (index: HandleIndex)
        ensures
            index.handles() == Seq::<usize>::empty(),
            index.slots() == Seq::<int>::empty(),
    {
        let index = HandleIndex { handles: keys_new(), slots: Vec::new() };
        assert(index.slots() =~= Seq::empty());
        index
    }

    /// The index of the rule of `handle`, if the handle was met.
    pub fn slot(&self, handle: usize) -> (at: Option<usize>)
        requires
            self.wf(),
        ensures
            match at {
                Some(i) => self.handles().contains(handle) && i == self.slot_of(handle),
                None => !self.handles().contains(handle),
            },
    {
        match keys_index_of(&self.handles, handle) {
            Some(k) => {
                assert(self.handles().index_of(handle) == k);
                let i = self.slots[k];
                assert(self.slots()[k as int] == i);
                Some(i)
            },
            None => None,
        }
    }

    /// Records that the rule of `handle`, which was not met before, has the
    /// index `slot`.
    pub fn record(&mut self, handle: usize, slot: usize)
        requires
            !old(self).handles().contains(handle),
        ensures
            final(self).handles() == old(self).handles().push(handle),
            final(self).slots() == old(self).slots().push(slot as int),
    {
        keys_insert(&mut self.handles, handle);
        self.slots.push(slot);
        assert(self.slots() =~= old(self).slots().push(slot as int));
    }
}

/// A rule table under construction.
pub struct Normalizer {
    rules: Vec<Rule>,
    index: HandleIndex,
}

impl View for Normalizer {
    type V = TableView;

    closed spec fn view(&self) -> TableView {
        TableView {
            rules: rule_views(self.rules@),
            handles: self.index.handles(),
            slots: self.index.slots(),
        }
    }
}

impl Normalizer {
    /// A table with no rule.
    pub fn new() -> (table: Normalizer)
        ensures
            table@ == TableView::empty(),
            table@.wf(),
    {
        let table = Normalizer { rules: Vec::new(), index: HandleIndex::new() };
        assert(table@.rules =~= Seq::empty());
        table
    }

    /// The rules of the table and the index of its handles.
    pub fn finish(self) -> (parts: (Vec<Rule>, HandleIndex))
        ensures
            rule_views(parts.0@) == self@.rules,
            parts.1.handles() == self@.handles,
            parts.1.slots() == self@.slots,
    {
        (self.rules, self.index)
    }

    /// Normalizes `node`, which belongs to the rule named `owner`, into the
    /// table.
    pub fn normalize_node(
        &mut self,
        node: &GrammarNode,
        defs: &Definitions,
        owner: &str,
        depth: usize,
    ) -> (out: (NormalizedNode, bool))
        requires
            old(self)@.wf(),
            defs.wf(),
        ensures
            out.0@ == norm(node@, old(self)@, defs.map(), owner@, depth as nat).0,
            out.1 == norm(node@, old(self)@, defs.map(), owner@, depth as nat).1,
            final(self)@ == norm(node@, old(self)@, defs.map(), owner@, depth as nat).2,
            final(self)@.wf(),
        decreases depth, node, 0nat,
    {
        proof {
            lemma_norm_table(node@, self@, defs.map(), owner@, depth as nat);
        }
        let ghost before = self@;
        match node {
            GrammarNode::Terminal(m) => (NormalizedNode::Terminal(m.duplicate()), false),
            GrammarNode::Choice(nodes) => {
                let (parts, rec) = self.normalize_all(nodes, defs, owner, depth);
                (NormalizedNode::Choice(parts), rec)
            },
            GrammarNode::Sequence(nodes) => {
                let (parts, rec) = self.normalize_all(nodes, defs, owner, depth);
                (NormalizedNode::Sequence(parts), rec)
            },
            GrammarNode::Optional(inner) => {
                let (part, rec) = self.normalize_node(inner, defs, owner, depth);
                let mut parts: Vec<NormalizedNode> = Vec::new();
                parts.push(part);
                parts.push(NormalizedNode::Sequence(Vec::new()));
                proof {
                    lemma_normalized_views(parts@);
                    lemma_normalized_views(Seq::empty());
                    assert(normalized_views(Seq::empty()) =~= Seq::empty());
                    assert(normalized_views(parts@) =~= seq![part@, epsilon()]);
                }
                (NormalizedNode::Choice(parts), rec)
            },
            GrammarNode::Reference(handle, name) => {
                match self.index.slot(*handle) {
                    Some(index) => {
                        proof {
                            let k = before.handles.index_of(*handle);
                            assert(0 <= before.slots[k] < before.rules.len());
                        }
                        let rec = is_placeholder(&self.rules[index].node);
                        (NormalizedNode::Reference(index), rec)
                    },
                    None => {
                        let index = self.rules.len();
                        self.index.record(*handle, index);
                        self.rules.push(
                            Rule {
                                name: name.clone(),
                                node: NormalizedNode::Placeholder,
                                is_recursive: false,
                                is_nullable: false,
                            },
                        );
                        let ghost reserved = before.reserve(*handle, name@);
                        proof {
                            assert(self@.rules =~= reserved.rules);
                            lemma_reserve_wf(before, *handle, name@);
                        }
                        let body = if depth > 0 {
                            defs.get(*handle)
                        } else {
                            None
                        };
                        match body {
                            Some(body) => {
                                proof {
                                    lemma_norm_table(
                                        body@,
                                        reserved,
                                        defs.map(),
                                        name@,
                                        (depth - 1) as nat,
                                    );
                                }
                                let (part, rec) = self.normalize_node(
                                    body,
                                    defs,
                                    name.as_str(),
                                    depth - 1,
                                );
                                let ghost after = self@;
                                let rule = Rule {
                                    name: name.clone(),
                                    node: part,
                                    is_recursive: rec,
                                    is_nullable: false,
                                };
                                self.rules.set(index, rule);
                                proof {
                                    assert(self@.rules =~= after.rules.update(index as int, rule@));
                                                }
                                (NormalizedNode::Reference(index), rec)
                            },
                            None => {
                                let rule = Rule {
                                    name: name.clone(),
                                    node: NormalizedNode::Choice(Vec::new()),
                                    is_recursive: false,
                                    is_nullable: false,
                                };
                                proof {
                                    lemma_normalized_views(Seq::empty());
                                    assert(normalized_views(Seq::empty()) =~= Seq::empty());
                                }
                                self.rules.set(index, rule);
                                proof {
                                    assert(self@.rules =~= reserved.rules.update(index as int, rule@));
                                }
                                (NormalizedNode::Reference(index), false)
                            },
                        }
                    },
                }
            },
            GrammarNode::Many(inner) => {
                let (item, rec) = self.normalize_node(inner, defs, owner, depth);
                let ghost after = self@;
                let index = self.rules.len();
                let rule = Rule {
                    name: many_name_of(owner),
                    node: repetition_of(item, index),
                    is_recursive: true,
                    is_nullable: false,
                };
                self.rules.push(rule);
                proof {
                    assert(self@.rules =~= after.rules.push(rule@));
                }
                (NormalizedNode::Reference(index), rec)
            },
            GrammarNode::OneOrMore(inner) => {
                let (item, rec) = self.normalize_node(inner, defs, owner, depth);
                let ghost after = self@;
                let first = self.rules.len();
                let item_rule = Rule {
                    name: item_name_of(owner),
                    node: item,
                    is_recursive: rec,
                    is_nullable: false,
                };
                self.rules.push(item_rule);
                let rest = self.rules.len();
                let rest_rule = Rule {
                    name: many_name_of(owner),
                    node: repetition_of(NormalizedNode::Reference(first), rest),
                    is_recursive: true,
                    is_nullable: false,
                };
                self.rules.push(rest_rule);
                proof {
                    assert(self@.rules =~= after.rules.push(item_rule@).push(rest_rule@));
                }
                let mut parts: Vec<NormalizedNode> = Vec::new();
                parts.push(NormalizedNode::Reference(first));
                parts.push(NormalizedNode::Reference(rest));
                proof {
                    lemma_normalized_views(parts@);
                    assert(normalized_views(parts@) =~= seq![
                        NormalizedView::Reference(first as int),
                        NormalizedView::Reference(rest as int),
                    ]);
                }
                (NormalizedNode::Sequence(parts), rec)
            },
        }
    }

    /// Normalizes `nodes` in order into the table.
    fn normalize_all(
        &mut self,
        nodes: &Vec<GrammarNode>,
        defs: &Definitions,
        owner: &str,
        depth: usize,
    ) -> (out: (Vec<NormalizedNode>, bool))
        requires
            old(self)@.wf(),
            defs.wf(),
        ensures
            normalized_views(out.0@) == norm_from(
                crate::grammar_dsl::grammar_views(nodes@),
                0,
                old(self)@,
                defs.map(),
                owner@,
                depth as nat,
            ).0,
            out.1 == norm_from(
                crate::grammar_dsl::grammar_views(nodes@),
                0,
                old(self)@,
                defs.map(),
                owner@,
                depth as nat,
            ).1,
            final(self)@ == norm_from(
                crate::grammar_dsl::grammar_views(nodes@),
                0,
                old(self)@,
                defs.map(),
                owner@,
                depth as nat,
            ).2,
            final(self)@.wf(),
        decreases depth, nodes, 1nat,
    {
        let ghost views = crate::grammar_dsl::grammar_views(nodes@);
        let ghost total = norm_from(views, 0, self@, defs.map(), owner@, depth as nat);
        let mut parts: Vec<NormalizedNode> = Vec::new();
        let mut rec = false;
        let mut k: usize = 0;
        proof {
            lemma_grammar_views(nodes@);
            lemma_normalized_views(parts@);
            assert(normalized_views(parts@) =~= Seq::empty());
            assert(normalized_views(parts@) + total.0 =~= total.0);
        }
        while k < nodes.len()
            invariant
                k <= nodes.len(),
                self@.wf(),
                defs.wf(),
                views == crate::grammar_dsl::grammar_views(nodes@),
                views.len() == nodes@.len(),
                forall|i: int| 0 <= i < nodes@.len() ==> (#[trigger] views[i]) == nodes@[i]@,
                normalized_views(parts@) + norm_from(
                    views,
                    k as int,
                    self@,
                    defs.map(),
                    owner@,
                    depth as nat,
                ).0 == total.0,
                (rec || norm_from(views, k as int, self@, defs.map(), owner@, depth as nat).1)
                    == total.1,
                norm_from(views, k as int, self@, defs.map(), owner@, depth as nat).2 == total.2,
            decreases nodes.len() - k,
        {
            let ghost here = self@;
            let ghost done = normalized_views(parts@);
            let ghost earlier = parts@;
            let (part, more) = self.normalize_node(&nodes[k], defs, owner, depth);
            parts.push(part);
            rec = rec || more;
            proof {
                lemma_normalized_views(parts@);
                let tail = norm_from(views, k + 1, self@, defs.map(), owner@, depth as nat);
                assert(normalized_views(parts@) =~= done.push(part@)) by {
                    lemma_normalized_views(earlier);
                }
                assert(done.push(part@) + tail.0 =~= done + (seq![part@] + tail.0));
            }
            k = k + 1;
        }
        (parts, rec)
    }
}

/// Whether the expression is the placeholder.
fn is_placeholder(node: &NormalizedNode) -> (b: bool)
    ensures
        b == (node@ is Placeholder),
{
    matches!(node, NormalizedNode::Placeholder)
}

/// The name of the rule made for the items of a repetition in `owner`.
fn item_name_of(owner: &str) -> (name: String)
    ensures
        name@ == item_name(owner@),
{
    let mut name = String::from_str(owner);
    name.append("_item");
    name
}

/// The name of the rule made for a repetition in `owner`.
fn many_name_of(owner: &str) -> (name: String)
    ensures
        name@ == many_name(owner@),
{
    let mut name = String::from_str(owner);
    name.append("_many");
    name
}

/// The body of the rule at `index` that repeats `item` any number of times.
fn repetition_of(item: NormalizedNode, index: usize) -> (node: NormalizedNode)
    ensures
        node@ == repetition(item@, index as int),
{
    let mut inner: Vec<NormalizedNode> = Vec::new();
    inner.push(item);
    inner.push(NormalizedNode::Reference(index));
    let mut outer: Vec<NormalizedNode> = Vec::new();
    outer.push(NormalizedNode::Sequence(inner));
    outer.push(NormalizedNode::Sequence(Vec::new()));
    proof {
        lemma_normalized_views(inner@);
        lemma_normalized_views(outer@);
        lemma_normalized_views(Seq::empty());
        assert(normalized_views(Seq::empty()) =~= Seq::empty());
        assert(normalized_views(inner@) =~= seq![item@, NormalizedView::Reference(index as int)]);
        assert(normalized_views(outer@) =~= seq![
            NormalizedView::Sequence(normalized_views(inner@)),
            epsilon(),
        ]);
    }
    NormalizedNode::Choice(outer)
}

/// Two references to one handle get one index, wherever they stand: a
/// reference that is normalized in any table that grew out of the table
/// that an earlier reference left gets the index that the earlier one got.
pub proof fn lemma_same_handle_same_index(
    handle: usize,
    first_name: Seq<char>,
    second_name: Seq<char>,
    first_table: TableView,
    second_table: TableView,
    defs: Map<usize, GrammarView>,
    first_owner: Seq<char>,
    second_owner: Seq<char>,
    first_depth: nat,
    second_depth: nat,
)
    requires
        first_table.wf(),
        second_table.wf(),
        norm(
            GrammarView::Reference(handle, first_name),
            first_table,
            defs,
            first_owner,
            first_depth,
        ).2.grows_to(second_table),
    ensures
        norm(
            GrammarView::Reference(handle, second_name),
            second_table,
            defs,
            second_owner,
            second_depth,
        ).0 == norm(
            GrammarView::Reference(handle, first_name),
            first_table,
            defs,
            first_owner,
            first_depth,
        ).0,
        norm(
            GrammarView::Reference(handle, second_name),
            second_table,
            defs,
            second_owner,
            second_depth,
        ).2 == second_table,
{
    let first = norm(
        GrammarView::Reference(handle, first_name),
        first_table,
        defs,
        first_owner,
        first_depth,
    );
    lemma_reference_slot(handle, first_name, first_table, defs, first_owner, first_depth);
    lemma_norm_table(
        GrammarView::Reference(handle, first_name),
        first_table,
        defs,
        first_owner,
        first_depth,
    );
    let k = first.2.handles.index_of(handle);
    assert(second_table.handles[k] == handle);
    assert(second_table.slots[k] == first.2.slots[k]);
    assert(second_table.handles.contains(handle));
    assert(second_table.handles.index_of(handle) == k);
}

/// A reference is normalized to the index that the table afterwards has for
/// its handle.
pub proof fn lemma_reference_slot(
    handle: usize,
    name: Seq<char>,
    table: TableView,
    defs: Map<usize, GrammarView>,
    owner: Seq<char>,
    depth: nat,
)
    requires
        table.wf(),
    ensures
        norm(GrammarView::Reference(handle, name), table, defs, owner, depth).2.handles.contains(
            handle,
        ),
        norm(GrammarView::Reference(handle, name), table, defs, owner, depth).0
            == NormalizedView::Reference(
            norm(GrammarView::Reference(handle, name), table, defs, owner, depth).2.slot_of(handle),
        ),
{
    let node = GrammarView::Reference(handle, name);
    let result = norm(node, table, defs, owner, depth);
    lemma_norm_table(node, table, defs, owner, depth);
    if !table.handles.contains(handle) {
        let index = table.rules.len() as int;
        let reserved = table.reserve(handle, name);
        lemma_reserve_wf(table, handle, name);
        let at = table.handles.len() as int;
        assert(reserved.handles[at] == handle);
        assert(reserved.slots[at] == index);
        if defs.contains_key(handle) && depth > 0 {
            lemma_norm_table(defs[handle], reserved, defs, name, (depth - 1) as nat);
            let after = norm(defs[handle], reserved, defs, name, (depth - 1) as nat).2;
            assert(after.handles[at] == reserved.handles[at]);
            assert(after.slots[at] == reserved.slots[at]);
            assert(result.2.handles == after.handles);
            assert(result.2.slots == after.slots);
            assert(result.2.handles.index_of(handle) == at);
        } else {
            assert(result.2.handles == reserved.handles);
            assert(result.2.handles.index_of(handle) == at);
        }
    }
}

/// The handles that have a definition and that the table has not met.
pub open spec fn unmet(table: TableView, defs: Map<usize, GrammarView>) -> Set<usize> {
    Set::new(|handle: usize| defs.contains_key(handle) && !table.handles.contains(handle))
}

/// A table that grew has met no fewer handles.
proof fn lemma_unmet_shrinks(table: TableView, later: TableView, defs: Map<usize, GrammarView>)
    requires
        defs.dom().finite(),
        table.grows_to(later),
    ensures
        unmet(later, defs).finite(),
        unmet(table, defs).finite(),
        unmet(later, defs).len() <= unmet(table, defs).len(),
{
    assert(unmet(table, defs).subset_of(defs.dom()));
    vstd::set_lib::lemma_len_subset(unmet(table, defs), defs.dom());
    assert forall|handle: usize| unmet(later, defs).contains(handle) implies unmet(
        table,
        defs,
    ).contains(handle) by {
        if table.handles.contains(handle) {
            let k = choose|k: int| 0 <= k < table.handles.len() && table.handles[k] == handle;
            assert(later.handles[k] == handle);
        }
    }
    vstd::set_lib::lemma_len_subset(unmet(later, defs), unmet(table, defs));
}

/// The depth never runs out where it is no less than the number of
/// definitions not met yet: every larger depth gives the same.
pub proof fn lemma_depth_suffices(
    node: GrammarView,
    table: TableView,
    defs: Map<usize, GrammarView>,
    owner: Seq<char>,
    depth: nat,
    more: nat,
)
    requires
        table.wf(),
        defs.dom().finite(),
        unmet(table, defs).len() <= depth <= more,
    ensures
        norm(node, table, defs, owner, depth) == norm(node, table, defs, owner, more),
    decreases depth, node, 0nat,
{
    match node {
        GrammarView::Terminal(m) => {},
        GrammarView::Choice(nodes) => {
            lemma_depth_suffices_from(nodes, 0, table, defs, owner, depth, more);
        },
        GrammarView::Sequence(nodes) => {
            lemma_depth_suffices_from(nodes, 0, table, defs, owner, depth, more);
        },
        GrammarView::Optional(inner) => {
            lemma_depth_suffices(*inner, table, defs, owner, depth, more);
        },
        GrammarView::Many(inner) => {
            lemma_depth_suffices(*inner, table, defs, owner, depth, more);
        },
        GrammarView::OneOrMore(inner) => {
            lemma_depth_suffices(*inner, table, defs, owner, depth, more);
        },
        GrammarView::Reference(handle, name) => {
            if !table.handles.contains(handle) && defs.contains_key(handle) {
                let reserved = table.reserve(handle, name);
                lemma_reserve_wf(table, handle, name);
                lemma_unmet_reserve(table, defs, handle, name);
                lemma_depth_suffices(
                    defs[handle],
                    reserved,
                    defs,
                    name,
                    (depth - 1) as nat,
                    (more - 1) as nat,
                );
            }
        },
    }
}

/// The depth never runs out for a sequence of expressions, as
/// `lemma_depth_suffices` says it of one.
pub proof fn lemma_depth_suffices_from(
    nodes: Seq<GrammarView>,
    k: int,
    table: TableView,
    defs: Map<usize, GrammarView>,
    owner: Seq<char>,
    depth: nat,
    more: nat,
)
    requires
        table.wf(),
        defs.dom().finite(),
        unmet(table, defs).len() <= depth <= more,
        0 <= k,
    ensures
        norm_from(nodes, k, table, defs, owner, depth) == norm_from(
            nodes,
            k,
            table,
            defs,
            owner,
            more,
        ),
    decreases depth, nodes, nodes.len() - k,
{
    if k < nodes.len() {
        lemma_depth_suffices(nodes[k], table, defs, owner, depth, more);
        lemma_norm_table(nodes[k], table, defs, owner, depth);
        let head = norm(nodes[k], table, defs, owner, depth);
        lemma_unmet_shrinks(table, head.2, defs);
        lemma_depth_suffices_from(nodes, k + 1, head.2, defs, owner, depth, more);
    }
}

/// The item of the body of a repetition.
pub open spec fn item_of(body: NormalizedView) -> NormalizedView {
    body->Choice_0[0]->Sequence_0[0]
}

/// Whether `normal` is the normal form of `node` in `table`: it has the
/// shape of `node`, with every reference replaced by the index that the table
/// has for its handle, every optional part by the choice between the part and
/// nothing, and every repetition by references to rules of the table that
/// repeat the normal form of its item.
pub open spec fn mirrors(node: GrammarView, normal: NormalizedView, table: TableView) -> bool
    decreases node,
{
    match node {
        GrammarView::Terminal(m) => normal == NormalizedView::Terminal(m),
        GrammarView::Choice(nodes) => {
            &&& normal is Choice
            &&& normal->Choice_0.len() == nodes.len()
            &&& forall|i: int|
                0 <= i < nodes.len() ==> mirrors(#[trigger] nodes[i], normal->Choice_0[i], table)
        },
        GrammarView::Sequence(nodes) => {
            &&& normal is Sequence
            &&& normal->Sequence_0.len() == nodes.len()
            &&& forall|i: int|
                0 <= i < nodes.len() ==> mirrors(#[trigger] nodes[i], normal->Sequence_0[i], table)
        },
        GrammarView::Optional(inner) => {
            &&& normal is Choice
            &&& normal->Choice_0.len() == 2
            &&& mirrors(*inner, normal->Choice_0[0], table)
            &&& normal->Choice_0[1] == epsilon()
        },
        GrammarView::Reference(handle, name) => {
            &&& table.handles.contains(handle)
            &&& normal == NormalizedView::Reference(table.slot_of(handle))
        },
        GrammarView::Many(inner) => {
            &&& normal is Reference
            &&& 0 <= normal->Reference_0 < table.rules.len()
            &&& table.rules[normal->Reference_0].node == repetition(
                item_of(table.rules[normal->Reference_0].node),
                normal->Reference_0,
            )
            &&& mirrors(*inner, item_of(table.rules[normal->Reference_0].node), table)
        },
        GrammarView::OneOrMore(inner) => {
            &&& normal is Sequence
            &&& normal->Sequence_0.len() == 2
            &&& normal->Sequence_0[0] is Reference
            &&& 0 <= normal->Sequence_0[0]->Reference_0
            &&& normal->Sequence_0[0]->Reference_0 + 1 < table.rules.len()
            &&& normal->Sequence_0[1] == NormalizedView::Reference(
                normal->Sequence_0[0]->Reference_0 + 1,
            )
            &&& mirrors(*inner, table.rules[normal->Sequence_0[0]->Reference_0].node, table)
            &&& table.rules[normal->Sequence_0[0]->Reference_0 + 1].node == repetition(
                normal->Sequence_0[0],
                normal->Sequence_0[0]->Reference_0 + 1,
            )
        },
    }
}

/// Whether every rule of a handle that is finished is the normal form of the
/// handle's definition, or the empty choice where the handle has none.
pub open spec fn table_mirrors(table: TableView, defs: Map<usize, GrammarView>) -> bool {
    forall|k: int|
        0 <= k < table.handles.len() ==> {
            let node = table.rules[#[trigger] table.slots[k]].node;
            ||| node is Placeholder
            ||| defs.contains_key(table.handles[k]) && mirrors(defs[table.handles[k]], node, table)
            ||| !defs.contains_key(table.handles[k]) && node == NormalizedView::Choice(
                Seq::empty(),
            )
        }
}

/// No normal form is the placeholder.
proof fn lemma_mirrors_finished(node: GrammarView, normal: NormalizedView, table: TableView)
    requires
        mirrors(node, normal, table),
    ensures
        !(normal is Placeholder),
{
}

/// A normal form in a table is one in every table that the table extends
/// to.
pub proof fn lemma_mirrors_extends(
    node: GrammarView,
    normal: NormalizedView,
    table: TableView,
    later: TableView,
)
    requires
        table.wf(),
        later.wf(),
        table.extends_to(later),
        mirrors(node, normal, table),
    ensures
        mirrors(node, normal, later),
    decreases node,
{
    match node {
        GrammarView::Terminal(m) => {},
        GrammarView::Choice(nodes) => {
            assert forall|i: int| 0 <= i < nodes.len() implies mirrors(
                #[trigger] nodes[i],
                normal->Choice_0[i],
                later,
            ) by {
                lemma_mirrors_extends(nodes[i], normal->Choice_0[i], table, later);
            }
        },
        GrammarView::Sequence(nodes) => {
            assert forall|i: int| 0 <= i < nodes.len() implies mirrors(
                #[trigger] nodes[i],
                normal->Sequence_0[i],
                later,
            ) by {
                lemma_mirrors_extends(nodes[i], normal->Sequence_0[i], table, later);
            }
        },
        GrammarView::Optional(inner) => {
            lemma_mirrors_extends(*inner, normal->Choice_0[0], table, later);
        },
        GrammarView::Reference(handle, name) => {
            let k = table.handles.index_of(handle);
            assert(later.handles[k] == handle);
            assert(later.slots[k] == table.slots[k]);
            assert(later.handles.index_of(handle) == k);
        },
        GrammarView::Many(inner) => {
            let index = normal->Reference_0;
            assert(later.rules[index] == table.rules[index]);
            lemma_mirrors_extends(*inner, item_of(table.rules[index].node), table, later);
        },
        GrammarView::OneOrMore(inner) => {
            let first = normal->Sequence_0[0]->Reference_0;
            assert(later.rules[first] == table.rules[first]);
            assert(later.rules[first + 1] == table.rules[first + 1]);
            lemma_mirrors_extends(*inner, table.rules[first].node, table, later);
        },
    }
}

/// A normal form in a table is one in the table with an unfinished rule
/// filled.
pub proof fn lemma_mirrors_fill(
    node: GrammarView,
    normal: NormalizedView,
    table: TableView,
    index: int,
    rule: RuleView,
)
    requires
        0 <= index < table.rules.len(),
        table.rules[index].node is Placeholder,
        mirrors(node, normal, table),
    ensures
        mirrors(node, normal, table.fill(index, rule)),
    decreases node,
{
    let filled = table.fill(index, rule);
    match node {
        GrammarView::Terminal(m) => {},
        GrammarView::Choice(nodes) => {
            assert forall|i: int| 0 <= i < nodes.len() implies mirrors(
                #[trigger] nodes[i],
                normal->Choice_0[i],
                filled,
            ) by {
                lemma_mirrors_fill(nodes[i], normal->Choice_0[i], table, index, rule);
            }
        },
        GrammarView::Sequence(nodes) => {
            assert forall|i: int| 0 <= i < nodes.len() implies mirrors(
                #[trigger] nodes[i],
                normal->Sequence_0[i],
                filled,
            ) by {
                lemma_mirrors_fill(nodes[i], normal->Sequence_0[i], table, index, rule);
            }
        },
        GrammarView::Optional(inner) => {
            lemma_mirrors_fill(*inner, normal->Choice_0[0], table, index, rule);
        },
        GrammarView::Reference(handle, name) => {},
        GrammarView::Many(inner) => {
            let at = normal->Reference_0;
            assert(at != index);
            lemma_mirrors_fill(*inner, item_of(table.rules[at].node), table, index, rule);
        },
        GrammarView::OneOrMore(inner) => {
            let first = normal->Sequence_0[0]->Reference_0;
            lemma_mirrors_finished(*inner, table.rules[first].node, table);
            assert(first != index);
            assert(first + 1 != index);
            lemma_mirrors_fill(*inner, table.rules[first].node, table, index, rule);
        },
    }
}

/// The rules of handles that mirror their definitions in a table do so in
/// every well-formed table that the table extends to.
proof fn lemma_table_mirrors_extends(
    table: TableView,
    later: TableView,
    defs: Map<usize, GrammarView>,
    k: int,
)
    requires
        table.wf(),
        later.wf(),
        table.extends_to(later),
        table_mirrors(table, defs),
        0 <= k < table.handles.len(),
    ensures
        ({
            let node = later.rules[later.slots[k]].node;
            ||| node is Placeholder
            ||| defs.contains_key(later.handles[k]) && mirrors(defs[later.handles[k]], node, later)
            ||| !defs.contains_key(later.handles[k]) && node == NormalizedView::Choice(
                Seq::empty(),
            )
        }),
{
    let slot = table.slots[k];
    assert(0 <= slot < table.rules.len());
    assert(later.slots[k] == slot);
    assert(later.handles[k] == table.handles[k]);
    assert(later.rules[slot] == table.rules[slot]);
    let node = table.rules[slot].node;
    if !(node is Placeholder) && defs.contains_key(table.handles[k]) {
        lemma_mirrors_extends(defs[table.handles[k]], node, table, later);
    }
}

/// The normal form that normalizing gives is the normal form of the
/// expression in the table that it leaves, and in that table every finished
/// rule of a handle is the normal form of the handle's definition.
pub proof fn lemma_norm_mirrors(
    node: GrammarView,
    table: TableView,
    defs: Map<usize, GrammarView>,
    owner: Seq<char>,
    depth: nat,
)
    requires
        table.wf(),
        defs.dom().finite(),
        unmet(table, defs).len() <= depth,
        table_mirrors(table, defs),
    ensures
        mirrors(node, norm(node, table, defs, owner, depth).0, norm(node, table, defs, owner, depth).2),
        table_mirrors(norm(node, table, defs, owner, depth).2, defs),
    decreases depth, node, 0nat,
{
    let result = norm(node, table, defs, owner, depth);
    lemma_norm_table(node, table, defs, owner, depth);
    match node {
        GrammarView::Terminal(m) => {},
        GrammarView::Choice(nodes) => {
            lemma_norm_from_mirrors(nodes, 0, table, defs, owner, depth);
            lemma_norm_from_table(nodes, 0, table, defs, owner, depth);
            let parts = norm_from(nodes, 0, table, defs, owner, depth).0;
            assert forall|i: int| 0 <= i < nodes.len() implies mirrors(
                #[trigger] nodes[i],
                parts[i],
                result.2,
            ) by {
                assert(mirrors(nodes[0 + i], parts[i], result.2));
            }
        },
        GrammarView::Sequence(nodes) => {
            lemma_norm_from_mirrors(nodes, 0, table, defs, owner, depth);
            lemma_norm_from_table(nodes, 0, table, defs, owner, depth);
            let parts = norm_from(nodes, 0, table, defs, owner, depth).0;
            assert forall|i: int| 0 <= i < nodes.len() implies mirrors(
                #[trigger] nodes[i],
                parts[i],
                result.2,
            ) by {
                assert(mirrors(nodes[0 + i], parts[i], result.2));
            }
        },
        GrammarView::Optional(inner) => {
            lemma_norm_mirrors(*inner, table, defs, owner, depth);
            let part = norm(*inner, table, defs, owner, depth).0;
            let parts = seq![part, epsilon()];
            assert(parts[0] == part && parts[1] == epsilon());
        },
        GrammarView::Reference(handle, name) => {
            lemma_reference_slot(handle, name, table, defs, owner, depth);
            if !table.handles.contains(handle) {
                let index = table.rules.len() as int;
                let at = table.handles.len() as int;
                let reserved = table.reserve(handle, name);
                lemma_reserve_wf(table, handle, name);
                assert(table.extends_to(reserved));
                assert(table_mirrors(reserved, defs)) by {
                    assert forall|k: int| 0 <= k < reserved.handles.len() implies ({
                        let node = reserved.rules[#[trigger] reserved.slots[k]].node;
                        ||| node is Placeholder
                        ||| defs.contains_key(reserved.handles[k]) && mirrors(
                            defs[reserved.handles[k]],
                            node,
                            reserved,
                        )
                        ||| !defs.contains_key(reserved.handles[k]) && node
                            == NormalizedView::Choice(Seq::empty())
                    }) by {
                        if k < at {
                            lemma_table_mirrors_extends(table, reserved, defs, k);
                        }
                    }
                }
                if defs.contains_key(handle) {
                    lemma_unmet_reserve(table, defs, handle, name);
                    lemma_norm_mirrors(defs[handle], reserved, defs, name, (depth - 1) as nat);
                    lemma_norm_table(defs[handle], reserved, defs, name, (depth - 1) as nat);
                    let sub = norm(defs[handle], reserved, defs, name, (depth - 1) as nat);
                    let after = sub.2;
                    let rule = RuleView {
                        name,
                        node: sub.0,
                        is_recursive: sub.1,
                        is_nullable: false,
                    };
                    let filled = after.fill(index, rule);
                    assert(result.2 == filled);
                    assert(after.rules[index] == reserved.rules[index]);
                    assert(after.handles[at] == reserved.handles[at]);
                    assert(after.slots[at] == reserved.slots[at]);
                    lemma_mirrors_fill(defs[handle], sub.0, after, index, rule);
                    assert forall|k: int| 0 <= k < filled.handles.len() implies ({
                        let node = filled.rules[#[trigger] filled.slots[k]].node;
                        ||| node is Placeholder
                        ||| defs.contains_key(filled.handles[k]) && mirrors(
                            defs[filled.handles[k]],
                            node,
                            filled,
                        )
                        ||| !defs.contains_key(filled.handles[k]) && node
                            == NormalizedView::Choice(Seq::empty())
                    }) by {
                        let slot = after.slots[k];
                        assert(0 <= slot < after.rules.len());
                        if slot == index {
                            assert(after.slots[at] == index);
                            assert(k == at);
                        } else {
                            let old_node = after.rules[slot].node;
                            assert(filled.rules[slot] == after.rules[slot]);
                            if !(old_node is Placeholder) && defs.contains_key(after.handles[k]) {
                                lemma_mirrors_fill(
                                    defs[after.handles[k]],
                                    old_node,
                                    after,
                                    index,
                                    rule,
                                );
                            }
                        }
                    }
                } else {
                    let rule = RuleView {
                        name,
                        node: NormalizedView::Choice(Seq::empty()),
                        is_recursive: false,
                        is_nullable: false,
                    };
                    let filled = reserved.fill(index, rule);
                    assert(result.2 == filled);
                    assert forall|k: int| 0 <= k < filled.handles.len() implies ({
                        let node = filled.rules[#[trigger] filled.slots[k]].node;
                        ||| node is Placeholder
                        ||| defs.contains_key(filled.handles[k]) && mirrors(
                            defs[filled.handles[k]],
                            node,
                            filled,
                        )
                        ||| !defs.contains_key(filled.handles[k]) && node
                            == NormalizedView::Choice(Seq::empty())
                    }) by {
                        let slot = reserved.slots[k];
                        assert(0 <= slot < reserved.rules.len());
                        if slot == index {
                            assert(reserved.slots[at] == index);
                            assert(k == at);
                        } else {
                            let old_node = reserved.rules[slot].node;
                            assert(filled.rules[slot] == reserved.rules[slot]);
                            if !(old_node is Placeholder) && defs.contains_key(reserved.handles[k]) {
                                lemma_mirrors_fill(
                                    defs[reserved.handles[k]],
                                    old_node,
                                    reserved,
                                    index,
                                    rule,
                                );
                            }
                        }
                    }
                }
            }
        },
        GrammarView::Many(inner) => {
            lemma_norm_mirrors(*inner, table, defs, owner, depth);
            lemma_norm_table(*inner, table, defs, owner, depth);
            let sub = norm(*inner, table, defs, owner, depth);
            let after = sub.2;
            let index = after.rules.len() as int;
            let rule = RuleView {
                name: many_name(owner),
                node: repetition(sub.0, index),
                is_recursive: true,
                is_nullable: false,
            };
            let last = after.push(rule);
            assert(result.2 == last);
            assert(after.extends_to(last));
            lemma_mirrors_extends(*inner, sub.0, after, last);
            lemma_item_of(sub.0, index);
            assert forall|k: int| 0 <= k < last.handles.len() implies ({
                let node = last.rules[#[trigger] last.slots[k]].node;
                ||| node is Placeholder
                ||| defs.contains_key(last.handles[k]) && mirrors(defs[last.handles[k]], node, last)
                ||| !defs.contains_key(last.handles[k]) && node == NormalizedView::Choice(
                    Seq::empty(),
                )
            }) by {
                lemma_table_mirrors_extends(after, last, defs, k);
            }
        },
        GrammarView::OneOrMore(inner) => {
            lemma_norm_mirrors(*inner, table, defs, owner, depth);
            lemma_norm_table(*inner, table, defs, owner, depth);
            let sub = norm(*inner, table, defs, owner, depth);
            let after = sub.2;
            let first = after.rules.len() as int;
            let rest = first + 1;
            let item_rule = RuleView {
                name: item_name(owner),
                node: sub.0,
                is_recursive: sub.1,
                is_nullable: false,
            };
            let rest_rule = RuleView {
                name: many_name(owner),
                node: repetition(NormalizedView::Reference(first), rest),
                is_recursive: true,
                is_nullable: false,
            };
            let last = after.push(item_rule).push(rest_rule);
            assert(result.2 == last);
            assert(after.extends_to(last));
            lemma_mirrors_extends(*inner, sub.0, after, last);
            let pair = seq![NormalizedView::Reference(first), NormalizedView::Reference(rest)];
            assert(pair[0] == NormalizedView::Reference(first));
            assert(pair[1] == NormalizedView::Reference(rest));
            assert(last.rules[first].node == sub.0);
            assert(last.rules[rest].node == repetition(NormalizedView::Reference(first), rest));
            assert forall|k: int| 0 <= k < last.handles.len() implies ({
                let node = last.rules[#[trigger] last.slots[k]].node;
                ||| node is Placeholder
                ||| defs.contains_key(last.handles[k]) && mirrors(defs[last.handles[k]], node, last)
                ||| !defs.contains_key(last.handles[k]) && node == NormalizedView::Choice(
                    Seq::empty(),
                )
            }) by {
                lemma_table_mirrors_extends(after, last, defs, k);
            }
        },
    }
}

/// The item of the body of a repetition is the item that the body was made
/// of.
proof fn lemma_item_of(item: NormalizedView, index: int)
    ensures
        item_of(repetition(item, index)) == item,
{
    let inner = seq![item, NormalizedView::Reference(index)];
    let outer = seq![NormalizedView::Sequence(inner), epsilon()];
    assert(outer[0] == NormalizedView::Sequence(inner));
    assert(inner[0] == item);
}

/// When a rule is reserved for a handle that has a definition, one fewer
/// definition is unmet.
proof fn lemma_unmet_reserve(
    table: TableView,
    defs: Map<usize, GrammarView>,
    handle: usize,
    name: Seq<char>,
)
    requires
        defs.dom().finite(),
        defs.contains_key(handle),
        !table.handles.contains(handle),
    ensures
        unmet(table.reserve(handle, name), defs).finite(),
        unmet(table.reserve(handle, name), defs).len() + 1 == unmet(table, defs).len(),
{
    let reserved = table.reserve(handle, name);
    assert(unmet(table, defs).subset_of(defs.dom()));
    vstd::set_lib::lemma_len_subset(unmet(table, defs), defs.dom());
    assert(unmet(table, defs).contains(handle));
    assert(unmet(reserved, defs) =~= unmet(table, defs).remove(handle)) by {
        assert forall|h: usize|
            unmet(reserved, defs).contains(h) <==> unmet(table, defs).remove(handle).contains(
                h,
            ) by {
            if table.handles.contains(h) {
                let k = choose|k: int| 0 <= k < table.handles.len() && table.handles[k] == h;
                assert(reserved.handles[k] == h);
            }
            if h == handle {
                assert(reserved.handles[table.handles.len() as int] == h);
            }
            if reserved.handles.contains(h) && h != handle {
                let k = choose|k: int| 0 <= k < reserved.handles.len() && reserved.handles[k] == h;
                assert(table.handles[k] == h);
            }
        }
    }
}

/// What `lemma_norm_mirrors` says of one expression, of a sequence of them.
pub proof fn lemma_norm_from_mirrors(
    nodes: Seq<GrammarView>,
    k: int,
    table: TableView,
    defs: Map<usize, GrammarView>,
    owner: Seq<char>,
    depth: nat,
)
    requires
        table.wf(),
        defs.dom().finite(),
        unmet(table, defs).len() <= depth,
        table_mirrors(table, defs),
        0 <= k,
    ensures
        forall|i: int|
            0 <= i < norm_from(nodes, k, table, defs, owner, depth).0.len() ==> mirrors(
                #[trigger] nodes[k + i],
                norm_from(nodes, k, table, defs, owner, depth).0[i],
                norm_from(nodes, k, table, defs, owner, depth).2,
            ),
        table_mirrors(norm_from(nodes, k, table, defs, owner, depth).2, defs),
    decreases depth, nodes, nodes.len() - k,
{
    if k < nodes.len() {
        lemma_norm_mirrors(nodes[k], table, defs, owner, depth);
        lemma_norm_table(nodes[k], table, defs, owner, depth);
        let head = norm(nodes[k], table, defs, owner, depth);
        lemma_unmet_shrinks(table, head.2, defs);
        lemma_norm_from_mirrors(nodes, k + 1, head.2, defs, owner, depth);
        lemma_norm_from_table(nodes, k + 1, head.2, defs, owner, depth);
        let tail = norm_from(nodes, k + 1, head.2, defs, owner, depth);
        let all = norm_from(nodes, k, table, defs, owner, depth);
        assert(all.0 == seq![head.0] + tail.0);
        assert(all.2 == tail.2);
        lemma_mirrors_extends(nodes[k], head.0, head.2, tail.2);
        assert forall|i: int| 0 <= i < all.0.len() implies mirrors(
            #[trigger] nodes[k + i],
            all.0[i],
            all.2,
        ) by {
            if i > 0 {
                assert(all.0[i] == tail.0[i - 1]);
                assert(mirrors(nodes[(k + 1) + (i - 1)], tail.0[i - 1], tail.2));
            }
        }
    }
}

} // verus!
