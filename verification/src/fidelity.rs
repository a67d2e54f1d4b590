//! Every event names its node by the path that leads to it.

use vstd::prelude::*;
use crate::child::positions;
use crate::child::Multi;
use crate::diff::PathEntry;
use crate::key::Key;
use crate::node::Child;
use crate::node::Node;
use crate::tree::change_events;
use crate::tree::field_events;
use crate::tree::fields_events;
use crate::tree::gone_events;
use crate::tree::node_events;
use crate::tree::present_events;
use crate::tree::removed_below;
use crate::tree::removed_children;
use crate::tree::removed_field;
use crate::tree::removed_fields;
use crate::tree::removed_subtree;
use crate::tree::EventView;

verus! {

/// The child of `node` that a step into a field and a step to a child lead to.
pub open spec fn child_of<W>(node: Node<W>, field: PathEntry, step: PathEntry) -> Option<Node<W>> {
    match (node, field) {
        (Node::Element(e), PathEntry::Field(name)) => if exists|i: int|
            0 <= i < e.fields@.len() && (#[trigger] e.fields@[i]).name@ == name@ {
            let i = choose|i: int| 0 <= i < e.fields@.len() && (#[trigger] e.fields@[i]).name@ == name@;
            match (e.fields@[i].child, step) {
                (Child::Single(s), PathEntry::Empty) => Some(*s.node),
                (Child::Optional(o), PathEntry::Empty) => o.child(),
                (Child::Multi(m), PathEntry::Key(k)) => if m.has(k@) {
                    Some(m.nodes@[m.position_of(k@)])
                } else {
                    None
                },
                _ => None,
            }
        } else {
            None
        },
        _ => None,
    }
}

/// The node that a path leads to from the root of a tree: two steps for
/// each level, one into a field and one to a child.
pub open spec fn node_at<W>(root: Node<W>, path: Seq<PathEntry>) -> Option<Node<W>>
    decreases path.len(),
{
    if path.len() == 0 {
        Some(root)
    } else if path.len() == 1 {
        None
    } else {
        match node_at(root, path.take(path.len() - 2)) {
            Some(parent) => child_of(parent, path[path.len() - 2], path[path.len() - 1]),
            None => None,
        }
    }
}

/// Whether an event names its nodes by the paths that lead to them: a
/// node of the current tree from the root `curr`, a node of the prior
/// tree from the root `last`. An event on the order of a keyed list
/// names the field of the list.
pub open spec fn placed<W>(e: EventView<W>, curr: Node<W>, last: Node<W>) -> bool {
    match e {
        EventView::EnterCurr { path, node } => node_at(curr, path) == Some(node),
        EventView::ExitCurr { path, node } => node_at(curr, path) == Some(node),
        EventView::Added { path, index, node } => node_at(curr, path) == Some(node),
        EventView::EnterLast { path, node } => node_at(last, path) == Some(node),
        EventView::ExitLast { path, node } => node_at(last, path) == Some(node),
        EventView::Removed { path, index, node } => node_at(last, path) == Some(node),
        EventView::Replaced { path, index, curr: c, last: l } => node_at(curr, path) == Some(c)
            && node_at(last, path) == Some(l),
        EventView::ParamsChanged { path, curr: c, last: l } => node_at(curr, path) == Some(c)
            && node_at(last, path) == Some(l),
        EventView::Reordered { path, pairs } => path.len() > 0 && path.last() is Field && node_at(
            curr,
            path.drop_last(),
        ).is_some() && node_at(last, path.drop_last()).is_some(),
    }
}

/// Whether every event of a list names its nodes by their paths.
pub open spec fn all_placed<W>(events: Seq<EventView<W>>, curr: Node<W>, last: Node<W>) -> bool {
    forall|i: int| 0 <= i < events.len() ==> placed(#[trigger] events[i], curr, last)
}

/// Two steps further down a path lead to a child of the node that the
/// path leads to.
proof fn lemma_two_steps<W>(root: Node<W>, path: Seq<PathEntry>, field: PathEntry, step: PathEntry)
    ensures
        node_at(root, path.push(field).push(step)) == match node_at(root, path) {
            Some(parent) => child_of(parent, field, step),
            None => None,
        },
{
    let long = path.push(field).push(step);
    assert(long.take(long.len() - 2) =~= path);
}

/// In a tree whose fields differ in name, the name of a field finds it.
proof fn lemma_field_found<W>(node: Node<W>, i: int)
    requires
        node.named(),
        node matches Node::Element(e) && 0 <= i < e.fields@.len(),
    ensures
        ({
            let e = node->Element_0;
            let name = e.fields@[i].name@;
            &&& exists|k: int| 0 <= k < e.fields@.len() && (#[trigger] e.fields@[k]).name@ == name
            &&& (choose|k: int| 0 <= k < e.fields@.len() && (#[trigger] e.fields@[k]).name@ == name) == i
        }),
{
    let e = node->Element_0;
    let name = e.fields@[i].name@;
    assert(e.fields@[i].name@ == name);
    let k = choose|k: int| 0 <= k < e.fields@.len() && (#[trigger] e.fields@[k]).name@ == name;
    if k < i {
        assert(e.fields@[k].name@ != e.fields@[i].name@);
    } else if i < k {
        assert(e.fields@[i].name@ != e.fields@[k].name@);
    }
}

/// The path to a node, two steps further, leads to the child in a field
/// of the node: to the single or optional child by an empty step.
proof fn lemma_child_at<W>(root: Node<W>, path: Seq<PathEntry>, parent: Node<W>, i: int, name: &'static str)
    requires
        node_at(root, path) == Some(parent),
        parent.named(),
        parent matches Node::Element(e) && 0 <= i < e.fields@.len() && e.fields@[i].name@ == name@,
    ensures
        ({
            let e = parent->Element_0;
            let here = path.push(PathEntry::Field(name)).push(PathEntry::Empty);
            match e.fields@[i].child {
                Child::Single(s) => node_at(root, here) == Some(*s.node),
                Child::Optional(o) => node_at(root, here) == o.child(),
                Child::Multi(_) => true,
            }
        }),
{
    lemma_field_found(parent, i);
    lemma_two_steps(root, path, PathEntry::Field(name), PathEntry::Empty);
}

/// The path to a node, two steps further, leads to the child in a field
/// of the node: to a keyed child by its key.
proof fn lemma_keyed_child_at<W>(
    root: Node<W>,
    path: Seq<PathEntry>,
    parent: Node<W>,
    i: int,
    name: &'static str,
    j: int,
    key: Key,
)
    requires
        node_at(root, path) == Some(parent),
        parent.named(),
        parent matches Node::Element(e) && 0 <= i < e.fields@.len() && e.fields@[i].name@ == name@ && (
        e.fields@[i].child matches Child::Multi(m) && m.wf() && 0 <= j < m.nodes@.len() && m.keys@[j]@
            == key@),
    ensures
        node_at(root, path.push(PathEntry::Field(name)).push(PathEntry::Key(key))) == Some(
            parent->Element_0.fields@[i].child->Multi_0.nodes@[j],
        ),
{
    let m = parent->Element_0.fields@[i].child->Multi_0;
    lemma_field_found(parent, i);
    lemma_two_steps(root, path, PathEntry::Field(name), PathEntry::Key(key));
    m.lemma_position(j);
}

/// The path to a node, one step further into a field, names the field.
proof fn lemma_field_at<W>(root: Node<W>, path: Seq<PathEntry>, parent: Node<W>, name: &'static str)
    requires
        node_at(root, path) == Some(parent),
    ensures
        node_at(root, path.push(PathEntry::Field(name)).drop_last()) == Some(parent),
{
    assert(path.push(PathEntry::Field(name)).drop_last() =~= path);
}

/// The removal of a node and of all below it names every node by its path.
proof fn lemma_removed_subtree_placed<W>(
    curr: Node<W>,
    last: Node<W>,
    node: Node<W>,
    path: Seq<PathEntry>,
    index: usize,
)
    requires
        node_at(last, path) == Some(node),
        node.wf(),
        node.named(),
    ensures
        all_placed(removed_subtree(node, path, index), curr, last),
    decreases node, 4int, 0nat,
{
    lemma_removed_below_placed(curr, last, node, path);
}

/// The removal of all below a node names every node by its path.
proof fn lemma_removed_below_placed<W>(curr: Node<W>, last: Node<W>, node: Node<W>, path: Seq<PathEntry>)
    requires
        node_at(last, path) == Some(node),
        node.wf(),
        node.named(),
    ensures
        all_placed(removed_below(node, path), curr, last),
    decreases node, 3int, 0nat,
{
    match node {
        Node::Widget(_) => {},
        Node::Element(e) => {
            lemma_removed_fields_placed(curr, last, node, path, e.fields@.len());
        },
    }
}

/// The removal of all in the first `n` fields of a node names every node
/// by its path.
proof fn lemma_removed_fields_placed<W>(
    curr: Node<W>,
    last: Node<W>,
    node: Node<W>,
    path: Seq<PathEntry>,
    n: nat,
)
    requires
        node_at(last, path) == Some(node),
        node.wf(),
        node.named(),
        node matches Node::Element(e) && n <= e.fields@.len(),
    ensures
        all_placed(removed_fields(node, path, n), curr, last),
    decreases node, 2int, n,
{
    if n > 0 {
        lemma_removed_fields_placed(curr, last, node, path, (n - 1) as nat);
        lemma_removed_field_placed(curr, last, node, path, n - 1);
    }
}

/// The removal of all in one field of a node names every node by its path.
proof fn lemma_removed_field_placed<W>(
    curr: Node<W>,
    last: Node<W>,
    node: Node<W>,
    path: Seq<PathEntry>,
    i: int,
)
    requires
        node_at(last, path) == Some(node),
        node.wf(),
        node.named(),
        node matches Node::Element(e) && 0 <= i < e.fields@.len(),
    ensures
        all_placed(removed_field(node, path, i), curr, last),
    decreases node, 1int, 0nat,
{
    let e = node->Element_0;
    let name = e.fields@[i].name;
    let here = path.push(PathEntry::Field(name));
    assert(e.fields@[i].child.wf());
    assert(e.fields@[i].child.named());
    lemma_child_at(last, path, node, i, name);
    match e.fields@[i].child {
        Child::Single(s) => {
            lemma_removed_subtree_placed(curr, last, *s.node, here.push(PathEntry::Empty), 0);
        },
        Child::Optional(o) => {
            match o.node {
                Some(n) => {
                    lemma_removed_subtree_placed(curr, last, *n, here.push(PathEntry::Empty), 0);
                },
                None => {},
            }
        },
        Child::Multi(m) => {
            lemma_removed_children_placed(curr, last, node, path, i, m.nodes@.len());
        },
    }
}

/// The removal of the first `n` children of a keyed list names every
/// node by its path.
proof fn lemma_removed_children_placed<W>(
    curr: Node<W>,
    last: Node<W>,
    node: Node<W>,
    path: Seq<PathEntry>,
    i: int,
    n: nat,
)
    requires
        node_at(last, path) == Some(node),
        node.wf(),
        node.named(),
        node matches Node::Element(e) && 0 <= i < e.fields@.len() && (e.fields@[i].child matches Child::Multi(
            m,
        ) && n <= m.nodes@.len()),
    ensures
        all_placed(
            removed_children(
                node,
                path.push(PathEntry::Field(node->Element_0.fields@[i].name)),
                i,
                n,
            ),
            curr,
            last,
        ),
    decreases node, 0int, n,
{
    let e = node->Element_0;
    let name = e.fields@[i].name;
    let m = e.fields@[i].child->Multi_0;
    assert(e.fields@[i].child.wf());
    assert(e.fields@[i].child.named());
    if n > 0 {
        lemma_removed_children_placed(curr, last, node, path, i, (n - 1) as nat);
        lemma_keyed_child_at(last, path, node, i, name, n - 1, m.keys@[n - 1]);
        lemma_removed_subtree_placed(
            curr,
            last,
            m.nodes@[n - 1],
            path.push(PathEntry::Field(name)).push(PathEntry::Key(m.keys@[n - 1])),
            (n - 1) as usize,
        );
    }
}

/// The events between two nodes that stand at one path, each in its
/// tree, name every node by the path that leads to it from the root of
/// its tree.
pub proof fn lemma_events_name_their_nodes<W>(
    curr: Node<W>,
    last: Node<W>,
    c: Node<W>,
    l: Node<W>,
    path: Seq<PathEntry>,
    index: usize,
)
    requires
        node_at(curr, path) == Some(c),
        node_at(last, path) == Some(l),
        c.wf(),
        l.wf(),
        c.named(),
        l.named(),
    ensures
        all_placed(node_events(c, l, path, index), curr, last),
    decreases c, 4int, 0nat,
{
    lemma_change_placed(curr, last, c, l, path, index);
}

/// What changed between two nodes at one path names every node by its path.
proof fn lemma_change_placed<W>(
    curr: Node<W>,
    last: Node<W>,
    c: Node<W>,
    l: Node<W>,
    path: Seq<PathEntry>,
    index: usize,
)
    requires
        node_at(curr, path) == Some(c),
        node_at(last, path) == Some(l),
        c.wf(),
        l.wf(),
        c.named(),
        l.named(),
    ensures
        all_placed(change_events(c, l, path, index), curr, last),
    decreases c, 3int, 0nat,
{
    lemma_removed_below_placed(curr, last, l, path);
    match (c, l) {
        (Node::Element(a), Node::Element(b)) => {
            if c.same_shape(&l) {
                lemma_fields_placed(curr, last, c, l, path, a.fields@.len());
            }
        },
        _ => {},
    }
}

/// What changed in the first `n` fields of two nodes of one shape names
/// every node by its path.
proof fn lemma_fields_placed<W>(
    curr: Node<W>,
    last: Node<W>,
    c: Node<W>,
    l: Node<W>,
    path: Seq<PathEntry>,
    n: nat,
)
    requires
        node_at(curr, path) == Some(c),
        node_at(last, path) == Some(l),
        c.wf(),
        l.wf(),
        c.named(),
        l.named(),
        c.same_shape(&l),
        c matches Node::Element(e) && n <= e.fields@.len(),
    ensures
        all_placed(fields_events(c, l, path, n), curr, last),
    decreases c, 2int, n,
{
    if n > 0 {
        lemma_fields_placed(curr, last, c, l, path, (n - 1) as nat);
        lemma_field_placed(curr, last, c, l, path, n - 1);
    }
}

/// What changed in one field of two nodes of one shape names every node
/// by its path.
proof fn lemma_field_placed<W>(
    curr: Node<W>,
    last: Node<W>,
    c: Node<W>,
    l: Node<W>,
    path: Seq<PathEntry>,
    i: int,
)
    requires
        node_at(curr, path) == Some(c),
        node_at(last, path) == Some(l),
        c.wf(),
        l.wf(),
        c.named(),
        l.named(),
        c.same_shape(&l),
        c matches Node::Element(e) && 0 <= i < e.fields@.len(),
    ensures
        all_placed(field_events(c, l, path, i), curr, last),
    decreases c, 1int, 0nat,
{
    let a = c->Element_0;
    let b = l->Element_0;
    let name = a.fields@[i].name;
    let here = path.push(PathEntry::Field(name));
    assert(a.fields@[i].name@ == b.fields@[i].name@);
    assert(a.fields@[i].child.kind() == b.fields@[i].child.kind());
    assert(a.fields@[i].child.wf());
    assert(b.fields@[i].child.wf());
    assert(a.fields@[i].child.named());
    assert(b.fields@[i].child.named());
    lemma_child_at(curr, path, c, i, name);
    lemma_child_at(last, path, l, i, name);
    match (a.fields@[i].child, b.fields@[i].child) {
        (Child::Single(x), Child::Single(y)) => {
            lemma_events_name_their_nodes(curr, last, *x.node, *y.node, here.push(PathEntry::Empty), 0);
        },
        (Child::Optional(x), Child::Optional(y)) => {
            match (x.node, y.node) {
                (Some(p), Some(q)) => {
                    lemma_events_name_their_nodes(curr, last, *p, *q, here.push(PathEntry::Empty), 0);
                },
                _ => {},
            }
        },
        (Child::Multi(x), Child::Multi(y)) => {
            lemma_gone_placed(curr, last, l, path, i, name, x, y, x.removed(&y).len());
            lemma_present_placed(curr, last, c, l, path, i, x.nodes@.len());
            lemma_field_at(curr, path, c, name);
            lemma_field_at(last, path, l, name);
        },
        _ => {},
    }
}

/// The events of the first `k` children that only the prior list has
/// name every node by its path.
proof fn lemma_gone_placed<W>(
    curr: Node<W>,
    last: Node<W>,
    l: Node<W>,
    path: Seq<PathEntry>,
    i: int,
    name: &'static str,
    x: Multi<Node<W>>,
    y: Multi<Node<W>>,
    k: nat,
)
    requires
        node_at(last, path) == Some(l),
        l.named(),
        l matches Node::Element(b) && 0 <= i < b.fields@.len() && b.fields@[i].name@ == name@
            && b.fields@[i].child == Child::Multi(y),
        y.wf(),
        k <= x.removed(&y).len(),
    ensures
        all_placed(gone_events(x.removed(&y), path.push(PathEntry::Field(name)), k), curr, last),
    decreases k,
{
    if k > 0 {
        lemma_gone_placed(curr, last, l, path, i, name, x, y, (k - 1) as nat);
        let n = y.keys@.len();
        let gone = |j: int| !x.has(y.keys@[j]@);
        let kept = positions(n).filter(gone);
        let j = kept[k - 1];
        assert(kept.contains(j));
        positions(n).lemma_filter_contains_rev(gone, j);
        let w = choose|w: int| 0 <= w < n && positions(n)[w] == j;
        assert(0 <= j < n);
        assert(x.removed(&y)[k - 1] == y.removed_record(j));
        lemma_keyed_child_at(last, path, l, i, name, j, y.keys@[j]);
    }
}

/// The events of the first `n` children of a keyed list name every node
/// by its path.
proof fn lemma_present_placed<W>(
    curr: Node<W>,
    last: Node<W>,
    c: Node<W>,
    l: Node<W>,
    path: Seq<PathEntry>,
    i: int,
    n: nat,
)
    requires
        node_at(curr, path) == Some(c),
        node_at(last, path) == Some(l),
        c.wf(),
        l.wf(),
        c.named(),
        l.named(),
        c.same_shape(&l),
        c matches Node::Element(e) && 0 <= i < e.fields@.len() && (e.fields@[i].child matches Child::Multi(
            m,
        ) && n <= m.nodes@.len()),
    ensures
        all_placed(
            present_events(c, l, path.push(PathEntry::Field(c->Element_0.fields@[i].name)), i, n),
            curr,
            last,
        ),
    decreases c, 0int, n,
{
    let a = c->Element_0;
    let b = l->Element_0;
    let name = a.fields@[i].name;
    let here = path.push(PathEntry::Field(name));
    assert(a.fields@[i].name@ == b.fields@[i].name@);
    assert(a.fields@[i].child.kind() == b.fields@[i].child.kind());
    assert(a.fields@[i].child.wf());
    assert(b.fields@[i].child.wf());
    assert(a.fields@[i].child.named());
    assert(b.fields@[i].child.named());
    match (a.fields@[i].child, b.fields@[i].child) {
        (Child::Multi(x), Child::Multi(y)) => {
            if n > 0 {
                lemma_present_placed(curr, last, c, l, path, i, (n - 1) as nat);
                let key = x.keys@[n - 1];
                lemma_keyed_child_at(curr, path, c, i, name, n - 1, key);
                if y.has(key@) {
                    let j = y.position_of(key@);
                    assert(y.key_views()[j] == key@);
                    lemma_keyed_child_at(last, path, l, i, name, j, key);
                    lemma_events_name_their_nodes(
                        curr,
                        last,
                        x.nodes@[n - 1],
                        y.nodes@[j],
                        here.push(PathEntry::Key(key)),
                        (n - 1) as usize,
                    );
                }
            }
        },
        _ => {},
    }
}

/// The events of the comparison of two trees name every node by the
/// path that leads to it from the root of its tree.
pub proof fn lemma_path_fidelity<W>(curr: Node<W>, last: Node<W>)
    requires
        curr.wf(),
        last.wf(),
        curr.named(),
        last.named(),
    ensures
        all_placed(node_events(curr, last, Seq::empty(), 0), curr, last),
{
    lemma_events_name_their_nodes(curr, last, curr, last, Seq::empty(), 0);
}

} // verus!
