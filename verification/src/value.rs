//! The closed six-variant representation of a document and its
//! mathematical model.

use vstd::prelude::*;

verus! {

/// The tag of a node: which of the six variants it is.
#[derive(Clone, Copy, Debug, PartialEq, Eq, Structural)]
pub enum TypeTag {
    Object,
    Array,
    String,
    Number,
    Boolean,
    Null,
}

impl TypeTag {
    /// The name of the tag as a summary shows it.
    pub open spec fn spec_name(self) -> Seq<char> {
        match self {
            TypeTag::Object => "Object"@,
            TypeTag::Array => "Array"@,
            TypeTag::String => "String"@,
            TypeTag::Number => "Number"@,
            TypeTag::Boolean => "Boolean"@,
            TypeTag::Null => "Null"@,
        }
    }

    /// The name of the tag as a summary shows it.
    pub fn name(self) -> (name: &'static str)
        ensures
            name@ == self.spec_name(),
    {
        match self {
            TypeTag::Object => "Object",
            TypeTag::Array => "Array",
            TypeTag::String => "String",
            TypeTag::Number => "Number",
            TypeTag::Boolean => "Boolean",
            TypeTag::Null => "Null",
        }
    }
}

/// A number in exactly one of its two forms. The floating-point form is held
/// as the bit pattern of an IEEE 754 double.
#[derive(Clone, Copy, Debug, PartialEq, Eq, Structural)]
pub enum Number {
    Integer(i64),
    Float(u64),
}

/// Whether `bits` is the pattern of a finite IEEE 754 double: its exponent
/// field, bits 52 to 62, is not all ones.
pub open spec fn is_finite(bits: u64) -> bool {
    (bits >> 52) & 0x7ff != 0x7ff
}

/// The mathematical model of a document: what a [`TaggedValue`] is a view of.
pub enum Tree {
    Object(Seq<(Seq<char>, Tree)>),
    Array(Seq<Tree>),
    String(Seq<char>),
    Number(Number),
    Boolean(bool),
    Null,
}

impl Tree {
    /// Which of the six variants this node is.
    pub open spec fn tag(self) -> TypeTag {
        match self {
            Tree::Object(_) => TypeTag::Object,
            Tree::Array(_) => TypeTag::Array,
            Tree::String(_) => TypeTag::String,
            Tree::Number(_) => TypeTag::Number,
            Tree::Boolean(_) => TypeTag::Boolean,
            Tree::Null => TypeTag::Null,
        }
    }

    /// A scalar leaf: a string, a number, a boolean or null.
    pub open spec fn is_leaf(self) -> bool {
        !(self is Object) && !(self is Array)
    }

    /// How many direct children the node has: the entries of an object, the
    /// elements of an array, none for a leaf.
    pub open spec fn arity(self) -> nat {
        match self {
            Tree::Object(entries) => entries.len(),
            Tree::Array(items) => items.len(),
            _ => 0,
        }
    }

    /// The `i`-th direct child, in the order in which the node holds them.
    pub open spec fn child(self, i: int) -> Tree
        recommends
            0 <= i < self.arity(),
    {
        match self {
            Tree::Object(entries) => entries[i].1,
            Tree::Array(items) => items[i],
            _ => Tree::Null,
        }
    }

    /// The key names of an object's own entries, in entry order; empty for
    /// every other node.
    pub open spec fn own_keys(self) -> Seq<Seq<char>> {
        match self {
            Tree::Object(entries) => Seq::new(entries.len(), |i: int| entries[i].0),
            _ => Seq::empty(),
        }
    }

    /// Every node of the tree in depth-first order: the node itself, then the
    /// nodes of each child in turn.
    pub open spec fn nodes(self) -> Seq<Tree>
        decreases self, self.arity() + 1,
    {
        seq![self] + self.nodes_below(self.arity())
    }

    /// The nodes of the first `n` children, child by child.
    pub open spec fn nodes_below(self, n: nat) -> Seq<Tree>
        decreases self, n,
    {
        if n == 0 || n > self.arity() {
            Seq::empty()
        } else {
            self.nodes_below((n - 1) as nat) + self.child(n - 1).nodes()
        }
    }

    /// Whether the node by itself is as a normalized document has it: an
    /// object uses no key twice, a float is finite.
    pub open spec fn sound(self) -> bool {
        match self {
            Tree::Object(_) => self.own_keys().no_duplicates(),
            Tree::Number(Number::Float(bits)) => is_finite(bits),
            _ => true,
        }
    }

    /// Whether every node of the tree is sound.
    pub open spec fn well_formed(self) -> bool {
        forall|i: int| 0 <= i < self.nodes().len() ==> (#[trigger] self.nodes()[i]).sound()
    }

    /// A node among the nodes of the first `n` children is a node of one of
    /// them.
    proof fn lemma_nodes_below(self, n: nat, node: Tree)
        requires
            n <= self.arity(),
        ensures
            self.nodes_below(n).contains(node) <==> exists|i: int|
                0 <= i < n && (#[trigger] self.child(i)).nodes().contains(node),
        decreases n,
    {
        if n > 0 {
            let front = self.nodes_below((n - 1) as nat);
            let last = self.child(n - 1).nodes();
            self.lemma_nodes_below((n - 1) as nat, node);
            if (front + last).contains(node) {
                let at = choose|at: int| 0 <= at < (front + last).len() && (front + last)[at] == node;
                if at < front.len() {
                    assert(front[at] == node);
                } else {
                    assert(last[at - front.len()] == node);
                }
            }
            if front.contains(node) {
                let at = choose|at: int| 0 <= at < front.len() && front[at] == node;
                assert((front + last)[at] == node);
            }
            if last.contains(node) {
                let at = choose|at: int| 0 <= at < last.len() && last[at] == node;
                assert((front + last)[front.len() + at] == node);
            }
        }
    }

    /// The nodes of a tree are its root, which comes first, and the nodes of
    /// the root's children.
    pub proof fn lemma_nodes(self)
        ensures
            self.nodes().len() >= 1,
            self.nodes()[0] == self,
            forall|node: Tree|
                self.nodes().contains(node) <==> node == self || exists|i: int|
                    0 <= i < self.arity() && (#[trigger] self.child(i)).nodes().contains(node),
    {
        let below = self.nodes_below(self.arity());
        assert forall|node: Tree|
            self.nodes().contains(node) <==> node == self || exists|i: int|
                0 <= i < self.arity() && (#[trigger] self.child(i)).nodes().contains(node) by {
            self.lemma_nodes_below(self.arity(), node);
            if self.nodes().contains(node) {
                let at = choose|at: int| 0 <= at < self.nodes().len() && self.nodes()[at] == node;
                if at > 0 {
                    assert(below[at - 1] == node);
                }
            }
            if node == self {
                assert(self.nodes()[0] == node);
            }
            if below.contains(node) {
                let at = choose|at: int| 0 <= at < below.len() && below[at] == node;
                assert(self.nodes()[at + 1] == node);
            }
        }
    }

    /// A tree is well formed where its root is sound and its children are
    /// well formed.
    pub proof fn lemma_well_formed(self)
        ensures
            self.well_formed() <==> self.sound() && forall|i: int|
                0 <= i < self.arity() ==> (#[trigger] self.child(i)).well_formed(),
    {
        self.lemma_nodes();
        if self.well_formed() {
            assert(self.nodes()[0].sound());
            assert forall|i: int| 0 <= i < self.arity() implies (#[trigger] self.child(
                i,
            )).well_formed() by {
                let child = self.child(i);
                assert forall|j: int| 0 <= j < child.nodes().len() implies (
                #[trigger] child.nodes()[j]).sound() by {
                    let node = child.nodes()[j];
                    assert(child.nodes().contains(node));
                    assert(self.nodes().contains(node));
                    let at = choose|at: int|
                        0 <= at < self.nodes().len() && self.nodes()[at] == node;
                    assert(self.nodes()[at].sound());
                }
            }
        }
        if self.sound() && forall|i: int|
            0 <= i < self.arity() ==> (#[trigger] self.child(i)).well_formed() {
            assert forall|j: int| 0 <= j < self.nodes().len() implies (#[trigger] self.nodes()[j]).sound() by {
                let node = self.nodes()[j];
                assert(self.nodes().contains(node));
                if node != self {
                    let i = choose|i: int|
                        0 <= i < self.arity() && (#[trigger] self.child(i)).nodes().contains(node);
                    let child = self.child(i);
                    assert(child.well_formed());
                    let at = choose|at: int|
                        0 <= at < child.nodes().len() && child.nodes()[at] == node;
                    assert(child.nodes()[at].sound());
                }
            }
        }
    }
}

/// One node of a normalized document.
#[derive(Debug, PartialEq, Eq)]
pub enum TaggedValue {
    Object(Vec<(String, TaggedValue)>),
    Array(Vec<TaggedValue>),
    String(String),
    Number(Number),
    Boolean(bool),
    Null,
}

impl View for TaggedValue {
    type V = Tree;

    open spec fn view(&self) -> Tree {
        self.model()
    }
}

impl TaggedValue {
    /// The tree that this value stands for: the same variant, with the same
    /// payload, over the trees of its children. (The test of the index only
    /// shows that the recursion ends; no other index is ever asked for.)
    pub open spec fn model(&self) -> Tree
        decreases self,
    {
        match self {
            TaggedValue::Object(entries) => Tree::Object(
                Seq::new(
                    entries@.len(),
                    |i: int|
                        if 0 <= i < entries@.len() {
                            (entries@[i].0@, entries@[i].1.model())
                        } else {
                            (Seq::empty(), Tree::Null)
                        },
                ),
            ),
            TaggedValue::Array(items) => Tree::Array(
                Seq::new(
                    items@.len(),
                    |i: int|
                        if 0 <= i < items@.len() {
                            items@[i].model()
                        } else {
                            Tree::Null
                        },
                ),
            ),
            TaggedValue::String(text) => Tree::String(text@),
            TaggedValue::Number(number) => Tree::Number(*number),
            TaggedValue::Boolean(flag) => Tree::Boolean(*flag),
            TaggedValue::Null => Tree::Null,
        }
    }

    /// Which of the six variants this node is.
    pub open spec fn spec_tag(&self) -> TypeTag {
        match self {
            TaggedValue::Object(_) => TypeTag::Object,
            TaggedValue::Array(_) => TypeTag::Array,
            TaggedValue::String(_) => TypeTag::String,
            TaggedValue::Number(_) => TypeTag::Number,
            TaggedValue::Boolean(_) => TypeTag::Boolean,
            TaggedValue::Null => TypeTag::Null,
        }
    }

    /// Which of the six variants this node is.
    #[verifier::when_used_as_spec(spec_tag)]
    pub fn tag(&self) -> (tag: TypeTag)
        ensures
            tag == self.spec_tag(),
            tag == self@.tag(),
    {
        proof {
            self.lemma_view();
        }
        match self {
            TaggedValue::Object(_) => TypeTag::Object,
            TaggedValue::Array(_) => TypeTag::Array,
            TaggedValue::String(_) => TypeTag::String,
            TaggedValue::Number(_) => TypeTag::Number,
            TaggedValue::Boolean(_) => TypeTag::Boolean,
            TaggedValue::Null => TypeTag::Null,
        }
    }

    /// The model of a node, one level deep: its variant, its own payload,
    /// and the models of its direct children.
    pub proof fn lemma_view(&self)
        ensures
            self@.tag() == self.spec_tag(),
            self matches TaggedValue::Object(entries) ==> {
                &&& self@.arity() == entries@.len()
                &&& self@.own_keys().len() == entries@.len()
                &&& forall|i: int|
                    0 <= i < entries@.len() ==> {
                        &&& self@.child(i) == (#[trigger] entries@[i]).1@
                        &&& self@.own_keys()[i] == entries@[i].0@
                    }
            },
            self matches TaggedValue::Array(items) ==> {
                &&& self@.arity() == items@.len()
                &&& forall|i: int| 0 <= i < items@.len() ==> self@.child(i) == (#[trigger] items@[i])@
            },
            self matches TaggedValue::String(text) ==> self@ == Tree::String(text@),
            self matches TaggedValue::Number(number) ==> self@ == Tree::Number(*number),
            self matches TaggedValue::Boolean(flag) ==> self@ == Tree::Boolean(*flag),
            self is Null ==> self@ == Tree::Null,
    {
        reveal_with_fuel(TaggedValue::model, 2);
        match self {
            TaggedValue::Object(entries) => {
                let model = self@->Object_0;
                assert(model.len() == entries@.len());
                assert forall|i: int| 0 <= i < entries@.len() implies {
                    &&& self@.child(i) == (#[trigger] entries@[i]).1@
                    &&& self@.own_keys()[i] == entries@[i].0@
                } by {
                    assert(model[i] == (entries@[i].0@, entries@[i].1@));
                }
            },
            TaggedValue::Array(items) => {
                let model = self@->Array_0;
                assert(model.len() == items@.len());
                assert forall|i: int| 0 <= i < items@.len() implies self@.child(i) == (
                #[trigger] items@[i])@ by {
                    assert(model[i] == items@[i]@);
                }
            },
            _ => {},
        }
    }
}

} // verus!
