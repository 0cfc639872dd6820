//! The five statistics of a document and the traversal that computes them.

use crate::value::{TaggedValue, Tree, TypeTag};
use vstd::prelude::*;

verus! {

/// The mathematical model of a [`Summary`].
pub struct SummaryView {
    /// Scalar leaves plus object entries seen so far.
    pub size: nat,
    /// The distinct key names seen so far, in order of first occurrence.
    pub keys: Seq<Seq<char>>,
    /// Object nodes seen so far.
    pub nested_object_count: nat,
    /// Occurrences per tag; a tag is absent until its first occurrence.
    pub type_histogram: Map<TypeTag, nat>,
    /// Array nodes seen so far that hold an object as a direct child.
    pub nested_array_with_object_count: nat,
}

/// The count a histogram gives for `tag`: zero where the tag is absent.
pub open spec fn tally(histogram: Map<TypeTag, nat>, tag: TypeTag) -> nat {
    if histogram.contains_key(tag) {
        histogram[tag]
    } else {
        0
    }
}

/// The histogram after one more occurrence of `tag`.
pub open spec fn bump(histogram: Map<TypeTag, nat>, tag: TypeTag) -> Map<TypeTag, nat> {
    histogram.insert(tag, tally(histogram, tag) + 1)
}

/// What a node adds to `size` by itself: an object its number of entries, an
/// array nothing, a leaf one.
pub open spec fn own_size(node: Tree) -> nat {
    match node {
        Tree::Object(entries) => entries.len(),
        Tree::Array(_) => 0,
        _ => 1,
    }
}

/// An array with at least one object among its direct children.
pub open spec fn holds_object(node: Tree) -> bool {
    node matches Tree::Array(items) && exists|i: int|
        0 <= i < items.len() && #[trigger] items[i] is Object
}

/// `keys` with `key` appended unless it is there already.
pub open spec fn push_distinct(keys: Seq<Seq<char>>, key: Seq<char>) -> Seq<Seq<char>> {
    if keys.contains(key) {
        keys
    } else {
        keys.push(key)
    }
}

/// `keys` with each key of `more` appended in turn unless it is there already.
pub open spec fn extend_distinct(keys: Seq<Seq<char>>, more: Seq<Seq<char>>) -> Seq<Seq<char>>
    decreases more.len(),
{
    if more.len() == 0 {
        keys
    } else {
        push_distinct(extend_distinct(keys, more.drop_last()), more.last())
    }
}

impl SummaryView {
    /// The summary of nothing.
    pub open spec fn empty() -> SummaryView {
        SummaryView {
            size: 0,
            keys: Seq::empty(),
            nested_object_count: 0,
            type_histogram: Map::empty(),
            nested_array_with_object_count: 0,
        }
    }

    /// The summary after one more node: the node's own contribution to each
    /// statistic, without its children's.
    pub open spec fn absorb(self, node: Tree) -> SummaryView {
        SummaryView {
            size: self.size + own_size(node),
            keys: extend_distinct(self.keys, node.own_keys()),
            nested_object_count: self.nested_object_count + if node is Object {
                1nat
            } else {
                0nat
            },
            type_histogram: bump(self.type_histogram, node.tag()),
            nested_array_with_object_count: self.nested_array_with_object_count
                + if holds_object(node) {
                1nat
            } else {
                0nat
            },
        }
    }

    /// The summary after each node of `nodes` in turn.
    pub open spec fn absorb_all(self, nodes: Seq<Tree>) -> SummaryView
        decreases nodes.len(),
    {
        if nodes.len() == 0 {
            self
        } else {
            self.absorb_all(nodes.drop_last()).absorb(nodes.last())
        }
    }

    /// The summary of two parts of a document taken together: counts add up,
    /// tag by tag in the histogram, and the keys of the second part follow
    /// those of the first, each once.
    pub open spec fn merge(self, other: SummaryView) -> SummaryView {
        SummaryView {
            size: self.size + other.size,
            keys: extend_distinct(self.keys, other.keys),
            nested_object_count: self.nested_object_count + other.nested_object_count,
            type_histogram: Map::new(
                |tag: TypeTag|
                    self.type_histogram.contains_key(tag) || other.type_histogram.contains_key(tag),
                |tag: TypeTag| tally(self.type_histogram, tag) + tally(other.type_histogram, tag),
            ),
            nested_array_with_object_count: self.nested_array_with_object_count
                + other.nested_array_with_object_count,
        }
    }

    /// Every count is one that a `usize` can hold.
    pub open spec fn fits(self) -> bool {
        &&& self.size <= usize::MAX
        &&& self.nested_object_count <= usize::MAX
        &&& self.nested_array_with_object_count <= usize::MAX
        &&& forall|tag: TypeTag| #[trigger] tally(self.type_histogram, tag) <= usize::MAX
    }

    /// No count of `self` exceeds the same count of `other`.
    pub open spec fn le(self, other: SummaryView) -> bool {
        &&& self.size <= other.size
        &&& self.nested_object_count <= other.nested_object_count
        &&& self.nested_array_with_object_count <= other.nested_array_with_object_count
        &&& forall|tag: TypeTag| #[trigger]
            tally(self.type_histogram, tag) <= tally(other.type_histogram, tag)
    }
}

/// The summary of a whole document: every node absorbed, depth first.
pub open spec fn summary_of(tree: Tree) -> SummaryView {
    SummaryView::empty().absorb_all(tree.nodes())
}

/// The summary of a node and its first `n` children: what the node adds by
/// itself, merged with the summary of each of those children in turn.
pub open spec fn merged_children(tree: Tree, n: nat) -> SummaryView
    decreases n,
{
    if n == 0 || n > tree.arity() {
        SummaryView::empty().absorb(tree)
    } else {
        merged_children(tree, (n - 1) as nat).merge(summary_of(tree.child(n - 1)))
    }
}

/// Absorbing a concatenation is absorbing its two parts in turn.
pub proof fn lemma_absorb_all_concat(start: SummaryView, first: Seq<Tree>, second: Seq<Tree>)
    ensures
        start.absorb_all(first + second) == start.absorb_all(first).absorb_all(second),
    decreases second.len(),
{
    if second.len() == 0 {
        assert(first + second =~= first);
    } else {
        assert((first + second).drop_last() =~= first + second.drop_last());
        assert((first + second).last() == second.last());
        lemma_absorb_all_concat(start, first, second.drop_last());
    }
}

/// Absorbing a single node is `absorb`.
pub proof fn lemma_absorb_all_one(start: SummaryView, node: Tree)
    ensures
        start.absorb_all(seq![node]) == start.absorb(node),
{
    assert(seq![node].drop_last() =~= Seq::<Tree>::empty());
    assert(start.absorb_all(Seq::<Tree>::empty()) == start);
    assert(seq![node].last() == node);
}

/// Absorbing nodes lowers no count.
proof fn lemma_absorb_all_grows(start: SummaryView, nodes: Seq<Tree>)
    ensures
        start.le(start.absorb_all(nodes)),
    decreases nodes.len(),
{
    if nodes.len() > 0 {
        lemma_absorb_all_grows(start, nodes.drop_last());
        let before = start.absorb_all(nodes.drop_last());
        let after = before.absorb(nodes.last());
        assert forall|tag: TypeTag| #[trigger]
            tally(start.type_histogram, tag) <= tally(after.type_histogram, tag) by {
            assert(tally(start.type_histogram, tag) <= tally(before.type_histogram, tag));
        }
    }
}

/// Absorbing more children of a node lowers no count.
proof fn lemma_nodes_below_grows(start: SummaryView, tree: Tree, fewer: nat, more: nat)
    requires
        fewer <= more <= tree.arity(),
    ensures
        start.absorb_all(tree.nodes_below(fewer)).le(start.absorb_all(tree.nodes_below(more))),
    decreases more,
{
    if fewer < more {
        let previous = (more - 1) as nat;
        lemma_nodes_below_grows(start, tree, fewer, previous);
        lemma_absorb_all_concat(start, tree.nodes_below(previous), tree.child(more - 1).nodes());
        lemma_absorb_all_grows(
            start.absorb_all(tree.nodes_below(previous)),
            tree.child(more - 1).nodes(),
        );
    }
}

/// The entry of `tag` in a listing of `histogram`: the tag with its count
/// where the tag has occurred, nothing where it has not.
pub open spec fn listed(histogram: Map<TypeTag, nat>, tag: TypeTag) -> Seq<(TypeTag, nat)> {
    if histogram.contains_key(tag) {
        seq![(tag, histogram[tag])]
    } else {
        Seq::empty()
    }
}

/// The entries of `histogram`, in the order of the tags: object, array,
/// string, number, boolean, null.
pub open spec fn listing(histogram: Map<TypeTag, nat>) -> Seq<(TypeTag, nat)> {
    listed(histogram, TypeTag::Object) + listed(histogram, TypeTag::Array) + listed(
        histogram,
        TypeTag::String,
    ) + listed(histogram, TypeTag::Number) + listed(histogram, TypeTag::Boolean) + listed(
        histogram,
        TypeTag::Null,
    )
}

/// The counts of a document, one `usize` per tag.
#[derive(Debug, PartialEq, Eq)]
pub struct TypeHistogram {
    pub object: usize,
    pub array: usize,
    pub string: usize,
    pub number: usize,
    pub boolean: usize,
    pub null: usize,
}

impl TypeHistogram {
    /// The counter kept for `tag`.
    pub open spec fn slot(self, tag: TypeTag) -> nat {
        match tag {
            TypeTag::Object => self.object as nat,
            TypeTag::Array => self.array as nat,
            TypeTag::String => self.string as nat,
            TypeTag::Number => self.number as nat,
            TypeTag::Boolean => self.boolean as nat,
            TypeTag::Null => self.null as nat,
        }
    }

    /// A histogram in which no tag has occurred.
    pub fn new() -> (histogram: TypeHistogram)
        ensures
            histogram@ == Map::<TypeTag, nat>::empty(),
    {
        let histogram = TypeHistogram {
            object: 0,
            array: 0,
            string: 0,
            number: 0,
            boolean: 0,
            null: 0,
        };
        assert(histogram@ =~= Map::<TypeTag, nat>::empty());
        histogram
    }

    /// How often `tag` has occurred; zero where it never has.
    pub fn count(&self, tag: TypeTag) -> (count: usize)
        ensures
            count == tally(self@, tag),
    {
        match tag {
            TypeTag::Object => self.object,
            TypeTag::Array => self.array,
            TypeTag::String => self.string,
            TypeTag::Number => self.number,
            TypeTag::Boolean => self.boolean,
            TypeTag::Null => self.null,
        }
    }

    /// The entry of `tag`, which is absent until the tag has occurred.
    pub fn get(&self, tag: TypeTag) -> (entry: Option<usize>)
        ensures
            entry is Some <==> self@.contains_key(tag),
            entry matches Some(count) ==> count == self@[tag],
    {
        let count = self.count(tag);
        if count == 0 {
            None
        } else {
            Some(count)
        }
    }

    /// The tags that have occurred, each with its count, in the order of the
    /// tags. A tag that never occurred has no entry.
    pub fn entries(&self) -> (entries: Vec<(TypeTag, usize)>)
        ensures
            entries@.map_values(|entry: (TypeTag, usize)| (entry.0, entry.1 as nat)) == listing(
                self@,
            ),
    {
        let mut entries: Vec<(TypeTag, usize)> = Vec::new();
        assert(entries@.map_values(|entry: (TypeTag, usize)| (entry.0, entry.1 as nat))
            =~= Seq::empty());
        self.list(TypeTag::Object, &mut entries);
        self.list(TypeTag::Array, &mut entries);
        self.list(TypeTag::String, &mut entries);
        self.list(TypeTag::Number, &mut entries);
        self.list(TypeTag::Boolean, &mut entries);
        self.list(TypeTag::Null, &mut entries);
        assert(Seq::<(TypeTag, nat)>::empty() + listed(self@, TypeTag::Object) =~= listed(
            self@,
            TypeTag::Object,
        ));
        entries
    }

    /// Appends the entry of `tag`, if it has one, to `entries`.
    fn list(&self, tag: TypeTag, entries: &mut Vec<(TypeTag, usize)>)
        ensures
            final(entries)@.map_values(|entry: (TypeTag, usize)| (entry.0, entry.1 as nat)) == old(
                entries,
            )@.map_values(|entry: (TypeTag, usize)| (entry.0, entry.1 as nat)) + listed(
                self@,
                tag,
            ),
    {
        let count = self.count(tag);
        if count > 0 {
            entries.push((tag, count));
        }
        assert(entries@.map_values(|entry: (TypeTag, usize)| (entry.0, entry.1 as nat)) =~= old(
            entries,
        )@.map_values(|entry: (TypeTag, usize)| (entry.0, entry.1 as nat)) + listed(self@, tag));
    }

    /// Counts one more occurrence of `tag`, unless the counter is at its
    /// limit; the result says whether it did.
    fn record(&mut self, tag: TypeTag) -> (ok: bool)
        ensures
            ok == (tally(old(self)@, tag) < usize::MAX),
            ok ==> final(self)@ == bump(old(self)@, tag),
            !ok ==> *final(self) == *old(self),
    {
        if self.count(tag) == usize::MAX {
            return false;
        }
        match tag {
            TypeTag::Object => {
                self.object = self.object + 1;
            },
            TypeTag::Array => {
                self.array = self.array + 1;
            },
            TypeTag::String => {
                self.string = self.string + 1;
            },
            TypeTag::Number => {
                self.number = self.number + 1;
            },
            TypeTag::Boolean => {
                self.boolean = self.boolean + 1;
            },
            TypeTag::Null => {
                self.null = self.null + 1;
            },
        }
        assert(self@ =~= bump(old(self)@, tag));
        true
    }
}

impl View for TypeHistogram {
    type V = Map<TypeTag, nat>;

    /// The tags that have occurred, each with its count.
    open spec fn view(&self) -> Map<TypeTag, nat> {
        Map::new(|tag: TypeTag| self.slot(tag) > 0, |tag: TypeTag| self.slot(tag))
    }
}

/// The key names that a list of strings holds, in its order.
pub open spec fn key_names(keys: Seq<String>) -> Seq<Seq<char>> {
    Seq::new(keys.len(), |i: int| keys[i]@)
}

/// The structural summary of a document.
#[derive(Debug, PartialEq, Eq)]
pub struct Summary {
    /// Scalar leaves plus object entries.
    pub size: usize,
    /// The distinct key names, in order of first occurrence.
    pub keys: Vec<String>,
    /// Object nodes, the root included.
    pub nested_object_count: usize,
    /// Occurrences per tag.
    pub type_histogram: TypeHistogram,
    /// Array nodes that hold an object as a direct child.
    pub nested_array_with_object_count: usize,
}

impl View for Summary {
    type V = SummaryView;

    open spec fn view(&self) -> SummaryView {
        SummaryView {
            size: self.size as nat,
            keys: key_names(self.keys@),
            nested_object_count: self.nested_object_count as nat,
            type_histogram: self.type_histogram@,
            nested_array_with_object_count: self.nested_array_with_object_count as nat,
        }
    }
}

impl Summary {
    /// The summary of nothing.
    pub fn new() -> (summary: Summary)
        ensures
            summary@ == SummaryView::empty(),
    {
        let summary = Summary {
            size: 0,
            keys: Vec::new(),
            nested_object_count: 0,
            type_histogram: TypeHistogram::new(),
            nested_array_with_object_count: 0,
        };
        assert(summary@.keys =~= Seq::<Seq<char>>::empty());
        summary
    }
}

/// Appends `key` to `keys` unless an equal string is there already.
fn push_key(keys: &mut Vec<String>, key: &String)
    ensures
        key_names(final(keys)@) == push_distinct(key_names(old(keys)@), key@),
{
    let mut found = false;
    let mut i: usize = 0;
    while i < keys.len() && !found
        invariant
            i <= keys.len(),
            *keys == *old(keys),
            found ==> key_names(keys@).contains(key@),
            !found ==> forall|j: int| 0 <= j < i ==> key_names(keys@)[j] != key@,
        decreases keys.len() - i + if found { 0int } else { 1int },
    {
        if keys[i] == *key {
            assert(key_names(keys@)[i as int] == key@);
            found = true;
        } else {
            i = i + 1;
        }
    }
    if !found {
        keys.push(key.clone());
        assert(key_names(keys@) =~= key_names(old(keys)@).push(key@));
    }
}

/// Whether some element of `items` is an object.
fn any_object(items: &Vec<TaggedValue>) -> (found: bool)
    ensures
        found == holds_object(TaggedValue::Array(*items)@),
{
    let ghost tree = TaggedValue::Array(*items)@;
    proof {
        TaggedValue::Array(*items).lemma_view();
    }
    let mut i: usize = 0;
    while i < items.len()
        invariant
            i <= items.len(),
            tree == TaggedValue::Array(*items)@,
            tree is Array,
            tree.arity() == items.len(),
            forall|j: int| 0 <= j < items.len() ==> tree.child(j) == (#[trigger] items[j])@,
            forall|j: int| 0 <= j < i ==> !(#[trigger] tree.child(j) is Object),
        decreases items.len() - i,
    {
        proof {
            items[i as int].lemma_view();
        }
        if let TaggedValue::Object(_) = &items[i] {
            assert(tree->Array_0[i as int] is Object);
            return true;
        }
        i = i + 1;
    }
    assert forall|j: int| 0 <= j < tree->Array_0.len() implies !(#[trigger] tree->Array_0[j]
        is Object) by {
        assert(tree.child(j) == tree->Array_0[j]);
    }
    false
}

/// Adds to `acc` what the node `value` contributes by itself. The result
/// says whether every count still fits; where one does not, `acc` holds no
/// summary.
fn absorb_node(value: &TaggedValue, acc: &mut Summary) -> (ok: bool)
    ensures
        ok == old(acc)@.absorb(value@).fits(),
        ok ==> final(acc)@ == old(acc)@.absorb(value@),
{
    let ghost start = acc@;
    let ghost goal = start.absorb(value@);
    proof {
        value.lemma_view();
    }
    assert(start.fits());
    assert(forall|tag: TypeTag|
        tag != value@.tag() ==> #[trigger] tally(goal.type_histogram, tag) == tally(
            start.type_histogram,
            tag,
        ));
    assert(tally(goal.type_histogram, value@.tag()) == tally(
        start.type_histogram,
        value@.tag(),
    ) + 1);
    match value {
        TaggedValue::Object(entries) => {
            if !acc.type_histogram.record(TypeTag::Object) {
                return false;
            }
            if acc.nested_object_count == usize::MAX {
                return false;
            }
            acc.nested_object_count = acc.nested_object_count + 1;
            if entries.len() > usize::MAX - acc.size {
                return false;
            }
            acc.size = acc.size + entries.len();
            let mut i: usize = 0;
            while i < entries.len()
                invariant
                    i <= entries.len(),
                    value@.own_keys().len() == entries.len(),
                    forall|j: int|
                        0 <= j < entries.len() ==> value@.own_keys()[j] == (#[trigger] entries[j]).0@,
                    key_names(acc.keys@) == extend_distinct(
                        start.keys,
                        value@.own_keys().take(i as int),
                    ),
                    acc.size == goal.size,
                    acc.nested_object_count == goal.nested_object_count,
                    acc.nested_array_with_object_count == goal.nested_array_with_object_count,
                    acc.type_histogram@ == goal.type_histogram,
                decreases entries.len() - i,
            {
                push_key(&mut acc.keys, &entries[i].0);
                proof {
                    let keys = value@.own_keys();
                    assert(keys.take(i + 1).drop_last() =~= keys.take(i as int));
                    assert(keys.take(i + 1).last() == keys[i as int]);
                }
                i = i + 1;
            }
            assert(value@.own_keys().take(i as int) =~= value@.own_keys());
            true
        },
        TaggedValue::Array(items) => {
            if !acc.type_histogram.record(TypeTag::Array) {
                return false;
            }
            if any_object(items) {
                if acc.nested_array_with_object_count == usize::MAX {
                    return false;
                }
                acc.nested_array_with_object_count = acc.nested_array_with_object_count + 1;
            }
            true
        },
        TaggedValue::String(_) => absorb_leaf(TypeTag::String, acc),
        TaggedValue::Number(_) => absorb_leaf(TypeTag::Number, acc),
        TaggedValue::Boolean(_) => absorb_leaf(TypeTag::Boolean, acc),
        TaggedValue::Null => absorb_leaf(TypeTag::Null, acc),
    }
}

/// Adds to `acc` what a scalar leaf with the tag `tag` contributes.
fn absorb_leaf(tag: TypeTag, acc: &mut Summary) -> (ok: bool)
    requires
        tag != TypeTag::Object,
        tag != TypeTag::Array,
    ensures
        ok == (old(acc).size < usize::MAX && tally(old(acc)@.type_histogram, tag) < usize::MAX),
        ok ==> final(acc)@ == (SummaryView {
            size: old(acc)@.size + 1,
            type_histogram: bump(old(acc)@.type_histogram, tag),
            ..old(acc)@
        }),
{
    if acc.size == usize::MAX {
        return false;
    }
    if !acc.type_histogram.record(tag) {
        return false;
    }
    acc.size = acc.size + 1;
    true
}

/// A count that does not fit stays too large whatever is absorbed after it.
proof fn lemma_overflow_stays(smaller: SummaryView, larger: SummaryView)
    requires
        smaller.le(larger),
        !smaller.fits(),
    ensures
        !larger.fits(),
{
    if forall|tag: TypeTag| #[trigger] tally(smaller.type_histogram, tag) <= usize::MAX {
    } else {
        let tag = choose|tag: TypeTag| !(#[trigger] tally(smaller.type_histogram, tag)
            <= usize::MAX);
        assert(tally(smaller.type_histogram, tag) <= tally(larger.type_histogram, tag));
    }
}

/// The summary after a node and the nodes of its first `n` children, where
/// `n` is at most the node's arity, is on the way to the summary after the
/// whole tree.
proof fn lemma_partial_traversal(start: SummaryView, tree: Tree, n: nat)
    requires
        n <= tree.arity(),
    ensures
        start.absorb(tree).absorb_all(tree.nodes_below(n)).le(start.absorb_all(tree.nodes())),
        n == tree.arity() ==> start.absorb(tree).absorb_all(tree.nodes_below(n))
            == start.absorb_all(tree.nodes()),
{
    lemma_absorb_all_concat(start, seq![tree], tree.nodes_below(tree.arity()));
    lemma_absorb_all_one(start, tree);
    lemma_nodes_below_grows(start.absorb(tree), tree, n, tree.arity());
}

/// Absorbs the whole tree `value` into `acc`, depth first. The result says
/// whether every count fits; where one does not, `acc` holds no summary.
fn absorb_tree(value: &TaggedValue, acc: &mut Summary) -> (ok: bool)
    ensures
        ok == old(acc)@.absorb_all(value@.nodes()).fits(),
        ok ==> final(acc)@ == old(acc)@.absorb_all(value@.nodes()),
    decreases value,
{
    let ghost start = acc@;
    let ghost tree = value@;
    let ghost base = start.absorb(tree);
    let ghost goal = start.absorb_all(tree.nodes());
    proof {
        value.lemma_view();
        lemma_partial_traversal(start, tree, 0);
    }
    if !absorb_node(value, acc) {
        proof {
            assert(base.absorb_all(tree.nodes_below(0)) == base);
            lemma_overflow_stays(base, goal);
        }
        return false;
    }
    match value {
        TaggedValue::Object(entries) => {
            let mut i: usize = 0;
            while i < entries.len()
                invariant
                    i <= entries.len(),
                    *value == TaggedValue::Object(*entries),
                    tree == value@,
                    tree.arity() == entries.len(),
                    forall|j: int|
                        0 <= j < entries.len() ==> tree.child(j) == (#[trigger] entries[j]).1@,
                    start == old(acc)@,
                    base == start.absorb(tree),
                    goal == start.absorb_all(tree.nodes()),
                    acc@ == base.absorb_all(tree.nodes_below(i as nat)),
                decreases entries.len() - i,
            {
                let ok = absorb_tree(&entries[i].1, acc);
                proof {
                    assert(tree.child(i as int) == entries[i as int].1@);
                    lemma_absorb_all_concat(
                        base,
                        tree.nodes_below(i as nat),
                        tree.child(i as int).nodes(),
                    );
                    assert(tree.nodes_below((i + 1) as nat) == tree.nodes_below(i as nat)
                        + tree.child(i as int).nodes());
                }
                if !ok {
                    proof {
                        lemma_partial_traversal(start, tree, (i + 1) as nat);
                        lemma_overflow_stays(base.absorb_all(tree.nodes_below((i + 1) as nat)), goal);
                    }
                    return false;
                }
                i = i + 1;
            }
        },
        TaggedValue::Array(items) => {
            let mut i: usize = 0;
            while i < items.len()
                invariant
                    i <= items.len(),
                    *value == TaggedValue::Array(*items),
                    tree == value@,
                    tree.arity() == items.len(),
                    forall|j: int| 0 <= j < items.len() ==> tree.child(j) == (#[trigger] items[j])@,
                    start == old(acc)@,
                    base == start.absorb(tree),
                    goal == start.absorb_all(tree.nodes()),
                    acc@ == base.absorb_all(tree.nodes_below(i as nat)),
                decreases items.len() - i,
            {
                let ok = absorb_tree(&items[i], acc);
                proof {
                    assert(tree.child(i as int) == items[i as int]@);
                    lemma_absorb_all_concat(
                        base,
                        tree.nodes_below(i as nat),
                        tree.child(i as int).nodes(),
                    );
                    assert(tree.nodes_below((i + 1) as nat) == tree.nodes_below(i as nat)
                        + tree.child(i as int).nodes());
                }
                if !ok {
                    proof {
                        lemma_partial_traversal(start, tree, (i + 1) as nat);
                        lemma_overflow_stays(base.absorb_all(tree.nodes_below((i + 1) as nat)), goal);
                    }
                    return false;
                }
                i = i + 1;
            }
        },
        _ => {},
    }
    proof {
        lemma_partial_traversal(start, tree, tree.arity());
    }
    true
}

/// Summarizes the document `value` in one depth-first traversal, or returns
/// `None` where a count of the summary exceeds what a `usize` holds.
pub fn try_summarize_value(value: &TaggedValue) -> (outcome: Option<Summary>)
    ensures
        outcome is Some <==> summary_of(value@).fits(),
        outcome matches Some(summary) ==> summary@ == summary_of(value@),
{
    let mut acc = Summary::new();
    if absorb_tree(value, &mut acc) {
        Some(acc)
    } else {
        None
    }
}

/// Summarizes the document `value` in one depth-first traversal.
///
/// The counts are `usize`, so the caller shows that they fit; every tree
/// that memory can hold meets this. [`try_summarize_value`] asks for nothing.
pub fn summarize_value(value: &TaggedValue) -> (summary: Summary)
    requires
        summary_of(value@).fits(),
    ensures
        summary@ == summary_of(value@),
{
    let mut acc = Summary::new();
    let ok = absorb_tree(value, &mut acc);
    assert(ok);
    acc
}

} // verus!
