//! The nodes of a tree: an element with a shape tag, attributes and child
//! fields, or a placeholder that is rendered into an element later.

use vstd::prelude::*;
use crate::child::Multi;
use crate::child::Option as Optional;
use crate::child::Single;
use vstd::std_specs::cmp::PartialEqSpecImpl;
use crate::key::text_equal;

verus! {

/// The kinds of child field.
#[derive(Clone, Copy, Debug, PartialEq, Eq, Structural)]
pub enum ChildType {
    Single,
    Optional,
    Multi,
}

/// The children in one field of a node.
#[derive(Debug, Clone)]
pub enum Child<N> {
    Single(Single<N>),
    Optional(Optional<N>),
    Multi(Multi<N>),
}

impl<N> Child<N> {
    /// The kind of the field.
    pub open spec fn kind(&self) -> ChildType {
        match self {
            Child::Single(_) => ChildType::Single,
            Child::Optional(_) => ChildType::Optional,
            Child::Multi(_) => ChildType::Multi,
        }
    }

    /// The kind of the field.
    pub fn child_type(&self) -> (t: ChildType)
        ensures
            t == self.kind(),
    {
        match self {
            Child::Single(_) => ChildType::Single,
            Child::Optional(_) => ChildType::Optional,
            Child::Multi(_) => ChildType::Multi,
        }
    }
}

/// A named child field.
#[derive(Debug, Clone)]
pub struct Field<N> {
    pub name: &'static str,
    pub child: Child<N>,
}

impl<N> Field<N> {
    /// The field `name` with the children `child`.
    pub fn new(name: &'static str, child: Child<N>) -> (f: Field<N>)
        ensures
            f.name == name,
            f.child == child,
    {
        Field { name, child }
    }
}

/// A node of a given shape: its tag, its attributes in written form, and
/// its child fields in the order in which the shape declares them.
#[derive(Debug)]
pub struct Element<W> {
    pub tag: u32,
    pub params: String,
    pub fields: Vec<Field<Node<W>>>,
}

/// A node: an element, or a placeholder that holds what a renderer needs
/// to produce one.
#[derive(Debug)]
pub enum Node<W> {
    Widget(W),
    Element(Element<W>),
}

impl<W> Child<Node<W>> {
    /// The keyed list, if the field holds one, and every tree in the
    /// field are well formed.
    pub open spec fn wf(&self) -> bool
        decreases self,
    {
        match self {
            Child::Single(s) => s.node.wf(),
            Child::Optional(o) => match o.node {
                Some(n) => n.wf(),
                None => true,
            },
            Child::Multi(m) => m.wf() && forall|j: int|
                0 <= j < m.nodes@.len() ==> (#[trigger] m.nodes@[j]).wf(),
        }
    }

    /// No placeholder is left in the field.
    pub open spec fn concrete(&self) -> bool
        decreases self,
    {
        match self {
            Child::Single(s) => s.node.concrete(),
            Child::Optional(o) => match o.node {
                Some(n) => n.concrete(),
                None => true,
            },
            Child::Multi(m) => forall|j: int|
                0 <= j < m.nodes@.len() ==> (#[trigger] m.nodes@[j]).concrete(),
        }
    }

    /// In every element of the field, no two fields have one name.
    pub open spec fn named(&self) -> bool
        decreases self,
    {
        match self {
            Child::Single(s) => s.node.named(),
            Child::Optional(o) => match o.node {
                Some(n) => n.named(),
                None => true,
            },
            Child::Multi(m) => forall|j: int| 0 <= j < m.nodes@.len() ==> (#[trigger] m.nodes@[j]).named(),
        }
    }

    /// Whether two fields hold alike children.
    pub open spec fn same_children(&self, other: &Child<Node<W>>) -> bool
        decreases self,
    {
        match (self, other) {
            (Child::Single(a), Child::Single(b)) => a.node.same_tree(&*b.node),
            (Child::Optional(a), Child::Optional(b)) => match (a.node, b.node) {
                (Some(x), Some(y)) => x.same_tree(&*y),
                (None, None) => true,
                _ => false,
            },
            (Child::Multi(a), Child::Multi(b)) => {
                &&& a.key_views() == b.key_views()
                &&& a.nodes@.len() == b.nodes@.len()
                &&& forall|j: int|
                    0 <= j < a.nodes@.len() ==> (#[trigger] a.nodes@[j]).same_tree(&b.nodes@[j])
            },
            _ => false,
        }
    }
}

impl<W> Element<W> {
    /// Whether two elements have one shape: the same tag, and child fields
    /// of the same names and kinds.
    pub open spec fn same_shape(&self, other: &Element<W>) -> bool {
        &&& self.tag == other.tag
        &&& self.fields@.len() == other.fields@.len()
        &&& forall|i: int|
            0 <= i < self.fields@.len() ==> (#[trigger] self.fields@[i]).name@ == other.fields@[i].name@
                && self.fields@[i].child.kind() == other.fields@[i].child.kind()
    }

    /// Whether two elements have one shape.
    pub fn has_shape_of(&self, other: &Element<W>) -> (r: bool)
        ensures
            r == self.same_shape(other),
    {
        if self.tag != other.tag || self.fields.len() != other.fields.len() {
            return false;
        }
        let mut i: usize = 0;
        while i < self.fields.len()
            invariant
                self.fields@.len() == other.fields@.len(),
                self.tag == other.tag,
                i <= self.fields@.len(),
                forall|k: int|
                    0 <= k < i ==> (#[trigger] self.fields@[k]).name@ == other.fields@[k].name@
                        && self.fields@[k].child.kind() == other.fields@[k].child.kind(),
            decreases self.fields@.len() - i,
        {
            let same_name = text_equal(self.fields[i].name, other.fields[i].name);
            let same_kind = self.fields[i].child.child_type() == other.fields[i].child.child_type();
            if !same_name || !same_kind {
                assert(!(self.fields@[i as int].name@ == other.fields@[i as int].name@
                    && self.fields@[i as int].child.kind() == other.fields@[i as int].child.kind()));
                return false;
            }
            i += 1;
        }
        true
    }
}

impl<W> Node<W> {
    /// An element.
    pub fn element(tag: u32, params: String, fields: Vec<Field<Node<W>>>) -> (n: Node<W>)
        ensures
            n == Node::Element(Element { tag, params, fields }),
    {
        Node::Element(Element { tag, params, fields })
    }

    /// Every keyed list in the tree is well formed.
    pub open spec fn wf(&self) -> bool
        decreases self,
    {
        match self {
            Node::Widget(_) => true,
            Node::Element(e) => forall|i: int|
                0 <= i < e.fields@.len() ==> (#[trigger] e.fields@[i]).child.wf(),
        }
    }

    /// No placeholder is left in the tree.
    pub open spec fn concrete(&self) -> bool
        decreases self,
    {
        match self {
            Node::Widget(_) => false,
            Node::Element(e) => forall|i: int|
                0 <= i < e.fields@.len() ==> (#[trigger] e.fields@[i]).child.concrete(),
        }
    }

    /// In every element of the tree, no two fields have one name, so that
    /// a path leads to one node at most.
    pub open spec fn named(&self) -> bool
        decreases self,
    {
        match self {
            Node::Widget(_) => true,
            Node::Element(e) => {
                &&& forall|i: int, j: int|
                    0 <= i < j < e.fields@.len() ==> (#[trigger] e.fields@[i]).name@
                        != (#[trigger] e.fields@[j]).name@
                &&& forall|i: int| 0 <= i < e.fields@.len() ==> (#[trigger] e.fields@[i]).child.named()
            },
        }
    }

    /// Whether two trees are alike: elements of one tag, with equal
    /// attributes and with fields of the same names that hold alike
    /// children, under equal keys where they are keyed. A tree that holds
    /// a placeholder is like no tree.
    pub open spec fn same_tree(&self, other: &Node<W>) -> bool
        decreases self,
    {
        match (self, other) {
            (Node::Element(a), Node::Element(b)) => {
                &&& a.tag == b.tag
                &&& a.params@ == b.params@
                &&& a.fields@.len() == b.fields@.len()
                &&& forall|i: int|
                    0 <= i < a.fields@.len() ==> (#[trigger] a.fields@[i]).name@ == b.fields@[i].name@
                        && a.fields@[i].child.same_children(&b.fields@[i].child)
            },
            _ => false,
        }
    }

    /// Whether two nodes have one shape: both are elements, with the
    /// same tag and with child fields of the same names and kinds.
    pub open spec fn same_shape(&self, other: &Node<W>) -> bool {
        match (self, other) {
            (Node::Element(a), Node::Element(b)) => a.same_shape(b),
            _ => false,
        }
    }

    /// Whether, in every element of the tree, no two fields have one name.
    #[verifier::loop_isolation(false)]
    pub fn is_named(&self) -> (r: bool)
        ensures
            r == self.named(),
        decreases self,
    {
        match self {
            Node::Widget(_) => true,
            Node::Element(e) => {
                let mut i: usize = 0;
                while i < e.fields.len()
                    invariant
                        i <= e.fields@.len(),
                        forall|a: int, b: int|
                            0 <= a < b < i ==> (#[trigger] e.fields@[a]).name@ != (#[trigger] e.fields@[b]).name@,
                        forall|k: int| 0 <= k < i ==> (#[trigger] e.fields@[k]).child.named(),
                    decreases e.fields@.len() - i,
                {
                    let mut a: usize = 0;
                    while a < i
                        invariant
                            a <= i,
                            i < e.fields@.len(),
                            forall|k: int|
                                0 <= k < a ==> (#[trigger] e.fields@[k]).name@ != e.fields@[i as int].name@,
                        decreases i - a,
                    {
                        if text_equal(e.fields[a].name, e.fields[i].name) {
                            assert(e.fields@[a as int].name@ == e.fields@[i as int].name@);
                            return false;
                        }
                        a += 1;
                    }
                    let ok = match &e.fields[i].child {
                        Child::Single(s) => s.get().is_named(),
                        Child::Optional(o) => match o.get() {
                            Some(n) => n.is_named(),
                            None => true,
                        },
                        Child::Multi(m) => {
                            let mut all = true;
                            let mut j: usize = 0;
                            while j < m.nodes.len()
                                invariant
                                    j <= m.nodes@.len(),
                                    all == forall|k: int| 0 <= k < j ==> (#[trigger] m.nodes@[k]).named(),
                                decreases m.nodes@.len() - j,
                            {
                                if !m.nodes[j].is_named() {
                                    all = false;
                                }
                                j += 1;
                            }
                            all
                        },
                    };
                    if !ok {
                        assert(!e.fields@[i as int].child.named());
                        return false;
                    }
                    i += 1;
                }
                true
            },
        }
    }

    /// Whether every keyed list in the tree is well formed.
    #[verifier::loop_isolation(false)]
    pub fn is_well_formed(&self) -> (r: bool)
        ensures
            r == self.wf(),
        decreases self,
    {
        match self {
            Node::Widget(_) => true,
            Node::Element(e) => {
                let mut i: usize = 0;
                while i < e.fields.len()
                    invariant
                        i <= e.fields@.len(),
                        forall|k: int| 0 <= k < i ==> (#[trigger] e.fields@[k]).child.wf(),
                    decreases e.fields@.len() - i,
                {
                    let ok = match &e.fields[i].child {
                        Child::Single(s) => s.get().is_well_formed(),
                        Child::Optional(o) => match o.get() {
                            Some(n) => n.is_well_formed(),
                            None => true,
                        },
                        Child::Multi(m) => {
                            let mut all = m.is_well_formed();
                            if all {
                                let mut j: usize = 0;
                                while j < m.nodes.len()
                                    invariant
                                        j <= m.nodes@.len(),
                                        all == forall|k: int| 0 <= k < j ==> (#[trigger] m.nodes@[k]).wf(),
                                    decreases m.nodes@.len() - j,
                                {
                                    if !m.nodes[j].is_well_formed() {
                                        all = false;
                                    }
                                    j += 1;
                                }
                            }
                            all
                        },
                    };
                    if !ok {
                        assert(!e.fields@[i as int].child.wf());
                        return false;
                    }
                    i += 1;
                }
                true
            },
        }
    }

    /// Whether no placeholder is left in the tree.
    #[verifier::loop_isolation(false)]
    pub fn is_concrete(&self) -> (r: bool)
        ensures
            r == self.concrete(),
        decreases self,
    {
        match self {
            Node::Widget(_) => false,
            Node::Element(e) => {
                let mut i: usize = 0;
                while i < e.fields.len()
                    invariant
                        i <= e.fields@.len(),
                        forall|k: int| 0 <= k < i ==> (#[trigger] e.fields@[k]).child.concrete(),
                    decreases e.fields@.len() - i,
                {
                    let ok = match &e.fields[i].child {
                        Child::Single(s) => s.get().is_concrete(),
                        Child::Optional(o) => match o.get() {
                            Some(n) => n.is_concrete(),
                            None => true,
                        },
                        Child::Multi(m) => {
                            let mut j: usize = 0;
                            let mut all = true;
                            while j < m.nodes.len()
                                invariant
                                    j <= m.nodes@.len(),
                                    all == forall|k: int|
                                        0 <= k < j ==> (#[trigger] m.nodes@[k]).concrete(),
                                decreases m.nodes@.len() - j,
                            {
                                if !m.nodes[j].is_concrete() {
                                    all = false;
                                }
                                j += 1;
                            }
                            all
                        },
                    };
                    if !ok {
                        assert(!self.concrete());
                        return false;
                    }
                    i += 1;
                }
                true
            },
        }
    }

    /// Whether two nodes have one shape.
    pub fn has_shape_of(&self, other: &Node<W>) -> (r: bool)
        ensures
            r == self.same_shape(other),
    {
        match (self, other) {
            (Node::Element(a), Node::Element(b)) => a.has_shape_of(b),
            _ => false,
        }
    }
}

/// Marks the setter of a builder that takes the attributes of a node.
pub struct BuilderParams;

/// Marks the setter of a builder that takes the children of a node.
pub struct BuilderChild;

/// A builder that takes a value of type `V` for the part that `K` marks.
pub trait BuilderSetter<K, V> {
    /// Takes the value.
    fn builder_set(&mut self, value: V);
}

/// Attributes that are built step by step, on behalf of the builder `PB`
/// of the node that they belong to.
pub trait Params<PB>: Sized where PB: BuilderSetter<BuilderParams, Self> {
    type Builder;

    /// A builder for the attributes, which hands them to `parent_builder`.
    fn builder(parent_builder: PB) -> Self::Builder;
}

/// The event handlers among the attributes of a node.
pub trait ParamsEvents<EA> {
    /// Whether a handler is set for the event of that name.
    fn has(&self, event_name: &str) -> bool;

    /// Hands an event to the handler of that name.
    fn send(&mut self, event_name: &str, event: EA);
}

/// Holds event handlers among the attributes of a node. Handlers take no
/// part in the comparison of attributes: two wrappers always count as equal.
#[derive(Debug, Clone)]
pub struct ParamsEventsWrapper<T>(pub Option<T>);

impl<T> PartialEq for ParamsEventsWrapper<T> {
    fn eq(&self, other: &ParamsEventsWrapper<T>) -> (r: bool) {
        true
    }
}

impl<T> PartialEqSpecImpl for ParamsEventsWrapper<T> {
    open spec fn obeys_eq_spec() -> bool {
        true
    }

    open spec fn eq_spec(&self, other: &ParamsEventsWrapper<T>) -> bool {
        true
    }
}

impl<T> Eq for ParamsEventsWrapper<T> {

}

impl<T> Default for ParamsEventsWrapper<T> {
    /// A wrapper without handlers.
    fn default() -> (w: ParamsEventsWrapper<T>)
        ensures
            w.0.is_none(),
    {
        ParamsEventsWrapper(None)
    }
}

} // verus!
