//! What holds of every summary, stated over the whole tree.

use crate::summary::{
    Summary, SummaryView, bump, extend_distinct, holds_object, key_names, lemma_absorb_all_concat,
    lemma_absorb_all_one, merged_children, push_distinct, summary_of, tally,
};
use crate::value::{TaggedValue, Tree, TypeTag};
use vstd::prelude::*;

verus! {

/// How many of `nodes` are scalar leaves.
pub open spec fn leaves_among(nodes: Seq<Tree>) -> nat
    decreases nodes.len(),
{
    if nodes.len() == 0 {
        0
    } else {
        leaves_among(nodes.drop_last()) + if nodes.last().is_leaf() {
            1nat
        } else {
            0nat
        }
    }
}

/// How many of `nodes` carry the tag `tag`.
pub open spec fn tagged_among(nodes: Seq<Tree>, tag: TypeTag) -> nat
    decreases nodes.len(),
{
    if nodes.len() == 0 {
        0
    } else {
        tagged_among(nodes.drop_last(), tag) + if nodes.last().tag() == tag {
            1nat
        } else {
            0nat
        }
    }
}

/// How many of `nodes` are arrays with an object among their direct
/// children.
pub open spec fn holders_among(nodes: Seq<Tree>) -> nat
    decreases nodes.len(),
{
    if nodes.len() == 0 {
        0
    } else {
        holders_among(nodes.drop_last()) + if holds_object(nodes.last()) {
            1nat
        } else {
            0nat
        }
    }
}

/// How many key-value entries the objects among `nodes` hold in all.
pub open spec fn entries_among(nodes: Seq<Tree>) -> nat
    decreases nodes.len(),
{
    if nodes.len() == 0 {
        0
    } else {
        entries_among(nodes.drop_last()) + match nodes.last() {
            Tree::Object(entries) => entries.len(),
            _ => 0,
        }
    }
}

/// The sum of all values of a histogram.
pub open spec fn histogram_total(histogram: Map<TypeTag, nat>) -> nat {
    tally(histogram, TypeTag::Object) + tally(histogram, TypeTag::Array) + tally(
        histogram,
        TypeTag::String,
    ) + tally(histogram, TypeTag::Number) + tally(histogram, TypeTag::Boolean) + tally(
        histogram,
        TypeTag::Null,
    )
}

/// The key names that the objects among `nodes` use for their own entries.
pub open spec fn keys_among(nodes: Seq<Tree>) -> Set<Seq<char>> {
    Set::new(
        |key: Seq<char>|
            exists|i: int|
                0 <= i < nodes.len() && (#[trigger] nodes[i]) is Object
                    && nodes[i].own_keys().contains(key),
    )
}

/// One more occurrence of a tag raises the sum of a histogram by one.
proof fn lemma_bump_total(histogram: Map<TypeTag, nat>, tag: TypeTag)
    ensures
        histogram_total(bump(histogram, tag)) == histogram_total(histogram) + 1,
{
    let after = bump(histogram, tag);
    assert(tally(after, tag) == tally(histogram, tag) + 1);
    assert forall|other: TypeTag| other != tag implies tally(after, other) == tally(
        histogram,
        other,
    ) by {}
}

/// The size after absorbing `nodes`: what it was before, plus the leaves and
/// the object entries among the nodes.
proof fn lemma_size(start: SummaryView, nodes: Seq<Tree>)
    ensures
        start.absorb_all(nodes).size == start.size + leaves_among(nodes) + entries_among(nodes),
    decreases nodes.len(),
{
    if nodes.len() > 0 {
        lemma_size(start, nodes.drop_last());
    }
}

/// The sum of the histogram after absorbing `nodes`: one more per node.
proof fn lemma_total(start: SummaryView, nodes: Seq<Tree>)
    ensures
        histogram_total(start.absorb_all(nodes).type_histogram) == histogram_total(
            start.type_histogram,
        ) + nodes.len(),
    decreases nodes.len(),
{
    if nodes.len() > 0 {
        lemma_total(start, nodes.drop_last());
        lemma_bump_total(start.absorb_all(nodes.drop_last()).type_histogram, nodes.last().tag());
    }
}

/// The counts per kind after absorbing `nodes`: what each was before, plus
/// the nodes of that kind.
proof fn lemma_counts(start: SummaryView, nodes: Seq<Tree>)
    ensures
        start.absorb_all(nodes).nested_object_count == start.nested_object_count + tagged_among(
            nodes,
            TypeTag::Object,
        ),
        start.absorb_all(nodes).nested_array_with_object_count
            == start.nested_array_with_object_count + holders_among(nodes),
        forall|tag: TypeTag| #[trigger]
            tally(start.absorb_all(nodes).type_histogram, tag) == tally(start.type_histogram, tag)
                + tagged_among(nodes, tag),
    decreases nodes.len(),
{
    if nodes.len() > 0 {
        lemma_counts(start, nodes.drop_last());
        let before = start.absorb_all(nodes.drop_last());
        let after = before.absorb(nodes.last());
        assert forall|tag: TypeTag| #[trigger]
            tally(after.type_histogram, tag) == tally(start.type_histogram, tag) + tagged_among(
                nodes,
                tag,
            ) by {
            assert(tally(before.type_histogram, tag) == tally(start.type_histogram, tag)
                + tagged_among(nodes.drop_last(), tag));
        }
    }
}

/// Every node is an object, an array or a scalar leaf, and only one of them.
proof fn lemma_kinds(nodes: Seq<Tree>)
    ensures
        tagged_among(nodes, TypeTag::Object) + tagged_among(nodes, TypeTag::Array) + leaves_among(
            nodes,
        ) == nodes.len(),
    decreases nodes.len(),
{
    if nodes.len() > 0 {
        lemma_kinds(nodes.drop_last());
    }
}

/// Size additivity: the size of a summary is the number of scalar leaves of
/// the tree plus the number of entries of all its objects; arrays add
/// nothing of their own.
pub proof fn law_size_additivity(tree: Tree)
    ensures
        summary_of(tree).size == leaves_among(tree.nodes()) + entries_among(tree.nodes()),
{
    lemma_size(SummaryView::empty(), tree.nodes());
}

/// Histogram completeness: the values of the histogram sum to the number of
/// objects plus the number of arrays plus the number of scalar leaves, which
/// is the number of nodes.
pub proof fn law_histogram_completeness(tree: Tree)
    ensures
        histogram_total(summary_of(tree).type_histogram) == summary_of(tree).nested_object_count
            + tagged_among(tree.nodes(), TypeTag::Array) + leaves_among(tree.nodes()),
        histogram_total(summary_of(tree).type_histogram) == tree.nodes().len(),
{
    lemma_total(SummaryView::empty(), tree.nodes());
    lemma_counts(SummaryView::empty(), tree.nodes());
    lemma_kinds(tree.nodes());
    assert(histogram_total(Map::<TypeTag, nat>::empty()) == 0);
}

/// Each count of a summary is the number of nodes of its kind: the
/// histogram's count of a tag is the number of nodes with that tag, a tag
/// is absent exactly where no node has it, the object count is the number of
/// objects, and an array is counted once where it holds an object, however
/// many it holds.
pub proof fn law_counts_by_kind(tree: Tree)
    ensures
        forall|tag: TypeTag| #[trigger]
            tally(summary_of(tree).type_histogram, tag) == tagged_among(tree.nodes(), tag),
        forall|tag: TypeTag| #[trigger]
            summary_of(tree).type_histogram.contains_key(tag) <==> tagged_among(tree.nodes(), tag)
                > 0,
        summary_of(tree).nested_object_count == tagged_among(tree.nodes(), TypeTag::Object),
        summary_of(tree).nested_array_with_object_count == holders_among(tree.nodes()),
{
    lemma_counts(SummaryView::empty(), tree.nodes());
    lemma_present_is_positive(SummaryView::empty(), tree.nodes());
    assert forall|tag: TypeTag| #[trigger]
        summary_of(tree).type_histogram.contains_key(tag) <==> tagged_among(tree.nodes(), tag)
            > 0 by {
        assert(tally(summary_of(tree).type_histogram, tag) == tagged_among(tree.nodes(), tag));
    }
}

/// A histogram that holds no zero holds none after absorbing nodes.
proof fn lemma_present_is_positive(start: SummaryView, nodes: Seq<Tree>)
    requires
        forall|tag: TypeTag| start.type_histogram.contains_key(tag) ==> start.type_histogram[tag] > 0,
    ensures
        forall|tag: TypeTag|
            start.absorb_all(nodes).type_histogram.contains_key(tag) ==> start.absorb_all(
                nodes,
            ).type_histogram[tag] > 0,
    decreases nodes.len(),
{
    if nodes.len() > 0 {
        lemma_present_is_positive(start, nodes.drop_last());
        let before = start.absorb_all(nodes.drop_last()).type_histogram;
        let after = bump(before, nodes.last().tag());
        assert forall|tag: TypeTag| after.contains_key(tag) implies after[tag] > 0 by {
            if tag != nodes.last().tag() {
                assert(before.contains_key(tag));
            }
        }
    }
}

/// The keys after `more` were added hold what was there and what `more`
/// holds, and nothing twice if nothing was there twice.
proof fn lemma_extend_distinct(keys: Seq<Seq<char>>, more: Seq<Seq<char>>)
    ensures
        forall|key: Seq<char>|
            extend_distinct(keys, more).contains(key) <==> keys.contains(key) || more.contains(key),
        keys.no_duplicates() ==> extend_distinct(keys, more).no_duplicates(),
    decreases more.len(),
{
    if more.len() > 0 {
        let front = more.drop_last();
        let before = extend_distinct(keys, front);
        let after = push_distinct(before, more.last());
        lemma_extend_distinct(keys, front);
        assert forall|key: Seq<char>| after.contains(key) <==> keys.contains(key) || more.contains(
            key,
        ) by {
            if after.contains(key) {
                let i = choose|i: int| 0 <= i < after.len() && after[i] == key;
                if i < before.len() {
                    assert(before[i] == key);
                    if front.contains(key) {
                        let j = choose|j: int| 0 <= j < front.len() && front[j] == key;
                        assert(more[j] == key);
                    }
                } else {
                    assert(more[more.len() - 1] == key);
                }
            }
            if keys.contains(key) {
                assert(before.contains(key));
                let i = choose|i: int| 0 <= i < before.len() && before[i] == key;
                assert(after[i] == key);
            }
            if more.contains(key) {
                let j = choose|j: int| 0 <= j < more.len() && more[j] == key;
                if j < front.len() {
                    assert(front[j] == key);
                    assert(before.contains(key));
                    let i = choose|i: int| 0 <= i < before.len() && before[i] == key;
                    assert(after[i] == key);
                } else if before.contains(key) {
                    let i = choose|i: int| 0 <= i < before.len() && before[i] == key;
                    assert(after[i] == key);
                } else {
                    assert(after[before.len() as int] == key);
                }
            }
        }
    }
}

/// The keys after absorbing `nodes` hold what was there and the own keys of
/// the objects among the nodes, and nothing twice if nothing was there twice.
proof fn lemma_keys(start: SummaryView, nodes: Seq<Tree>)
    ensures
        forall|key: Seq<char>|
            start.absorb_all(nodes).keys.contains(key) <==> start.keys.contains(key) || keys_among(
                nodes,
            ).contains(key),
        start.keys.no_duplicates() ==> start.absorb_all(nodes).keys.no_duplicates(),
    decreases nodes.len(),
{
    if nodes.len() > 0 {
        let front = nodes.drop_last();
        let before = start.absorb_all(front);
        let after = before.absorb(nodes.last());
        lemma_keys(start, front);
        lemma_extend_distinct(before.keys, nodes.last().own_keys());
        assert forall|key: Seq<char>| after.keys.contains(key) <==> start.keys.contains(key)
            || keys_among(nodes).contains(key) by {
            if keys_among(front).contains(key) {
                let i = choose|i: int|
                    0 <= i < front.len() && (#[trigger] front[i]) is Object
                        && front[i].own_keys().contains(key);
                assert(nodes[i] == front[i]);
            }
            if nodes.last().own_keys().contains(key) {
                assert(nodes[nodes.len() - 1] is Object);
            }
            if keys_among(nodes).contains(key) {
                let i = choose|i: int|
                    0 <= i < nodes.len() && (#[trigger] nodes[i]) is Object
                        && nodes[i].own_keys().contains(key);
                if i < front.len() {
                    assert(front[i] == nodes[i]);
                }
            }
        }
    } else {
        assert forall|key: Seq<char>| !keys_among(nodes).contains(key) by {}
    }
}

/// Adding keys in two steps is adding, in one step, the second keys added to
/// the first.
proof fn lemma_extend_distinct_twice(keys: Seq<Seq<char>>, first: Seq<Seq<char>>, second: Seq<Seq<char>>)
    ensures
        extend_distinct(extend_distinct(keys, first), second) == extend_distinct(
            keys,
            extend_distinct(first, second),
        ),
    decreases second.len(),
{
    if second.len() > 0 {
        let front = second.drop_last();
        let key = second.last();
        let inner = extend_distinct(first, front);
        lemma_extend_distinct_twice(keys, first, front);
        if inner.contains(key) {
            lemma_extend_distinct(keys, inner);
        } else {
            assert(inner.push(key).drop_last() =~= inner);
            assert(inner.push(key).last() == key);
        }
    }
}

/// Merging is associative.
pub proof fn law_merge_associative(first: SummaryView, second: SummaryView, third: SummaryView)
    ensures
        first.merge(second).merge(third) == first.merge(second.merge(third)),
{
    lemma_extend_distinct_twice(first.keys, second.keys, third.keys);
    assert(first.merge(second).merge(third).type_histogram =~= first.merge(
        second.merge(third),
    ).type_histogram);
}

/// Absorbing nodes into a summary is merging the summary with the summary of
/// those nodes alone.
proof fn lemma_absorb_is_merge(start: SummaryView, nodes: Seq<Tree>)
    ensures
        start.absorb_all(nodes) == start.merge(SummaryView::empty().absorb_all(nodes)),
    decreases nodes.len(),
{
    let alone = SummaryView::empty().absorb_all(nodes);
    if nodes.len() == 0 {
        assert(start.merge(alone).type_histogram =~= start.type_histogram);
    } else {
        let front = nodes.drop_last();
        let alone_front = SummaryView::empty().absorb_all(front);
        lemma_absorb_is_merge(start, front);
        lemma_extend_distinct_twice(start.keys, alone_front.keys, nodes.last().own_keys());
        assert(start.absorb_all(nodes).type_histogram =~= start.merge(alone).type_histogram);
    }
}

/// Merge semantics: the summary of a tree is what its root adds by itself,
/// merged with the summaries of the root's children in their order.
pub proof fn law_merge_of_children(tree: Tree)
    ensures
        summary_of(tree) == merged_children(tree, tree.arity()),
{
    lemma_merged_children(tree, tree.arity());
    lemma_absorb_all_concat(SummaryView::empty(), seq![tree], tree.nodes_below(tree.arity()));
    lemma_absorb_all_one(SummaryView::empty(), tree);
}

/// The summary after a node and the nodes of its first `n` children is the
/// merge of those children's summaries into what the node adds by itself.
proof fn lemma_merged_children(tree: Tree, n: nat)
    requires
        n <= tree.arity(),
    ensures
        SummaryView::empty().absorb(tree).absorb_all(tree.nodes_below(n)) == merged_children(
            tree,
            n,
        ),
    decreases n,
{
    let base = SummaryView::empty().absorb(tree);
    if n > 0 {
        let previous = (n - 1) as nat;
        lemma_merged_children(tree, previous);
        lemma_absorb_all_concat(base, tree.nodes_below(previous), tree.child(n - 1).nodes());
        lemma_absorb_is_merge(base.absorb_all(tree.nodes_below(previous)), tree.child(n - 1).nodes());
    }
}

/// Key-set correctness: the keys of a summary are the union, over every
/// object of the tree, of that object's own key names, each once. Nothing
/// else is a key: not a string held in an array, nor any other leaf.
pub proof fn law_key_set(tree: Tree)
    ensures
        summary_of(tree).keys.to_set() == keys_among(tree.nodes()),
        summary_of(tree).keys.no_duplicates(),
{
    lemma_keys(SummaryView::empty(), tree.nodes());
    assert(summary_of(tree).keys.to_set() =~= keys_among(tree.nodes()));
}

/// Determinism: two summaries of one document hold the same counts, the
/// same histogram and the same keys in the same order.
pub proof fn law_summaries_agree(value: TaggedValue, first: Summary, second: Summary)
    requires
        first@ == summary_of(value@),
        second@ == summary_of(value@),
    ensures
        first.size == second.size,
        first.nested_object_count == second.nested_object_count,
        first.nested_array_with_object_count == second.nested_array_with_object_count,
        first.type_histogram == second.type_histogram,
        first.keys@.len() == second.keys@.len(),
        forall|i: int| 0 <= i < first.keys@.len() ==> first.keys@[i]@ == second.keys@[i]@,
{
    let one = first.type_histogram;
    let two = second.type_histogram;
    assert forall|tag: TypeTag| one.slot(tag) == two.slot(tag) by {
        assert(tally(one@, tag) == one.slot(tag));
        assert(tally(two@, tag) == two.slot(tag));
    }
    assert(one.slot(TypeTag::Object) == two.slot(TypeTag::Object));
    assert(one.slot(TypeTag::Array) == two.slot(TypeTag::Array));
    assert(one.slot(TypeTag::String) == two.slot(TypeTag::String));
    assert(one.slot(TypeTag::Number) == two.slot(TypeTag::Number));
    assert(one.slot(TypeTag::Boolean) == two.slot(TypeTag::Boolean));
    assert(one.slot(TypeTag::Null) == two.slot(TypeTag::Null));
    let names = key_names(first.keys@);
    let others = key_names(second.keys@);
    assert(names == others);
    assert(names.len() == first.keys@.len());
    assert(others.len() == second.keys@.len());
    assert forall|i: int| 0 <= i < first.keys@.len() implies first.keys@[i]@ == second.keys@[i]@ by {
        assert(names[i] == first.keys@[i]@);
        assert(others[i] == second.keys@[i]@);
    }
}

} // verus!
