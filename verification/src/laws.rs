//! What holds of the difference between two trees, whatever the trees.

use vstd::prelude::*;
use crate::child::Multi;
use crate::diff::PathEntry;
use crate::node::Child;
use crate::node::Node;
use crate::tree::added_events;
use crate::tree::change_events;
use crate::tree::field_events;
use crate::tree::fields_events;
use crate::tree::gone_events;
use crate::tree::node_events;
use crate::tree::present_events;
use crate::tree::removed_events;
use crate::tree::EventView;

verus! {

/// Whether a list of events reports no change: it holds hooks only.
pub open spec fn only_hooks<W>(events: Seq<EventView<W>>) -> bool {
    forall|i: int| 0 <= i < events.len() ==> (#[trigger] events[i]).is_hook()
}

/// A tree without placeholders is like itself.
pub proof fn lemma_same_tree_reflexive<W>(tree: Node<W>)
    requires
        tree.concrete(),
    ensures
        tree.same_tree(&tree),
    decreases tree,
{
    match tree {
        Node::Widget(_) => {},
        Node::Element(e) => {
            assert forall|i: int| 0 <= i < e.fields@.len() implies (#[trigger] e.fields@[i]).child.same_children(
                &e.fields@[i].child,
            ) by {
                assert(e.fields@[i].child.concrete());
                match e.fields@[i].child {
                    Child::Single(s) => {
                        lemma_same_tree_reflexive(*s.node);
                    },
                    Child::Optional(o) => {
                        match o.node {
                            Some(n) => {
                                lemma_same_tree_reflexive(*n);
                            },
                            None => {},
                        }
                    },
                    Child::Multi(m) => {
                        assert forall|j: int| 0 <= j < m.nodes@.len() implies (#[trigger] m.nodes@[j]).same_tree(
                            &m.nodes@[j],
                        ) by {
                            lemma_same_tree_reflexive(m.nodes@[j]);
                        }
                    },
                }
            }
        },
    }
}

/// Two trees that are alike differ in nothing: between them only hooks
/// are fired, and no node is reported as added, removed, replaced,
/// changed or moved. This holds of a tree and a copy of it, and so of the
/// copy of the prior tree that stands in for a placeholder whose renderer
/// declined.
pub proof fn lemma_alike_trees_report_nothing<W>(
    curr: Node<W>,
    last: Node<W>,
    path: Seq<PathEntry>,
    index: usize,
)
    requires
        curr.wf(),
        last.wf(),
        curr.same_tree(&last),
    ensures
        only_hooks(node_events(curr, last, path, index)),
    decreases curr, 3int, 0nat,
{
    match (curr, last) {
        (Node::Element(a), Node::Element(b)) => {
            assert forall|i: int| 0 <= i < a.fields@.len() implies (#[trigger] a.fields@[i]).name@
                == b.fields@[i].name@ && a.fields@[i].child.kind() == b.fields@[i].child.kind() by {
                assert(a.fields@[i].child.same_children(&b.fields@[i].child));
            }
            assert(curr.same_shape(&last));
            lemma_alike_fields(curr, last, path, a.fields@.len());
            assert(change_events(curr, last, path, index) =~= fields_events(
                curr,
                last,
                path,
                a.fields@.len(),
            ));
        },
        _ => {},
    }
}

/// The first `n` fields of two trees that are alike report nothing.
proof fn lemma_alike_fields<W>(curr: Node<W>, last: Node<W>, path: Seq<PathEntry>, n: nat)
    requires
        curr.wf(),
        last.wf(),
        curr.same_tree(&last),
        curr matches Node::Element(e) && n <= e.fields@.len(),
    ensures
        only_hooks(fields_events(curr, last, path, n)),
    decreases curr, 2int, n,
{
    if n > 0 {
        lemma_alike_fields(curr, last, path, (n - 1) as nat);
        lemma_alike_field(curr, last, path, n - 1);
    }
}

/// One field of two trees that are alike reports nothing.
proof fn lemma_alike_field<W>(curr: Node<W>, last: Node<W>, path: Seq<PathEntry>, i: int)
    requires
        curr.wf(),
        last.wf(),
        curr.same_tree(&last),
        curr matches Node::Element(e) && 0 <= i < e.fields@.len(),
    ensures
        only_hooks(field_events(curr, last, path, i)),
    decreases curr, 1int, 0nat,
{
    match (curr, last) {
        (Node::Element(a), Node::Element(b)) => {
            let here = path.push(PathEntry::Field(a.fields@[i].name));
            assert(a.fields@[i].child.same_children(&b.fields@[i].child));
            assert(a.fields@[i].child.wf());
            assert(b.fields@[i].child.wf());
            match (a.fields@[i].child, b.fields@[i].child) {
                (Child::Single(c), Child::Single(l)) => {
                    lemma_alike_trees_report_nothing(*c.node, *l.node, here.push(PathEntry::Empty), 0);
                },
                (Child::Optional(c), Child::Optional(l)) => {
                    match (c.node, l.node) {
                        (Some(x), Some(y)) => {
                            lemma_alike_trees_report_nothing(*x, *y, here.push(PathEntry::Empty), 0);
                        },
                        _ => {},
                    }
                },
                (Child::Multi(c), Child::Multi(l)) => {
                    c.lemma_same_keys(&l);
                    lemma_alike_children(curr, last, here, i, c.nodes@.len());
                    assert(gone_events(c.removed(&l), here, 0) =~= Seq::<EventView<W>>::empty());
                    assert(field_events(curr, last, path, i) =~= present_events(
                        curr,
                        last,
                        here,
                        i,
                        c.nodes@.len(),
                    ));
                },
                _ => {},
            }
        },
        _ => {},
    }
}

/// The first `n` children of a keyed list of two trees that are alike
/// report nothing.
proof fn lemma_alike_children<W>(curr: Node<W>, last: Node<W>, path: Seq<PathEntry>, i: int, n: nat)
    requires
        curr.wf(),
        last.wf(),
        curr.same_tree(&last),
        curr matches Node::Element(e) && 0 <= i < e.fields@.len() && (e.fields@[i].child matches Child::Multi(
            m,
        ) && n <= m.nodes@.len()),
    ensures
        only_hooks(present_events(curr, last, path, i, n)),
    decreases curr, 0int, n,
{
    match (curr, last) {
        (Node::Element(a), Node::Element(b)) => {
            assert(a.fields@[i].child.same_children(&b.fields@[i].child));
            assert(a.fields@[i].child.wf());
            assert(b.fields@[i].child.wf());
            match (a.fields@[i].child, b.fields@[i].child) {
                (Child::Multi(c), Child::Multi(l)) => {
                    if n > 0 {
                        lemma_alike_children(curr, last, path, i, (n - 1) as nat);
                        let key = c.keys@[n - 1];
                        c.lemma_position(n - 1);
                        l.lemma_position(n - 1);
                        assert(c.key_views()[n - 1] == l.key_views()[n - 1]);
                        assert(l.has(key@));
                        assert(l.position_of(key@) == n - 1);
                        lemma_alike_trees_report_nothing(
                            c.nodes@[n - 1],
                            l.nodes@[n - 1],
                            path.push(PathEntry::Key(key)),
                            (n - 1) as usize,
                        );
                    }
                },
                _ => {},
            }
        },
        _ => {},
    }
}

/// A tree compared with itself differs in nothing.
pub proof fn lemma_tree_differs_not_from_itself<W>(tree: Node<W>, path: Seq<PathEntry>, index: usize)
    requires
        tree.wf(),
        tree.concrete(),
    ensures
        only_hooks(node_events(tree, tree, path, index)),
{
    lemma_same_tree_reflexive(tree);
    lemma_alike_trees_report_nothing(tree, tree, path, index);
}

/// The removal of the first `n` children of a keyed list, one by one.
pub open spec fn all_removed<W>(list: Multi<Node<W>>, path: Seq<PathEntry>, n: nat) -> Seq<EventView<W>>
    decreases n,
{
    if n == 0 {
        Seq::empty()
    } else {
        all_removed(list, path, (n - 1) as nat) + removed_events(
            list.nodes@[n - 1],
            path.push(PathEntry::Key(list.keys@[n - 1])),
            (n - 1) as usize,
        )
    }
}

/// The addition of the first `n` children of a keyed list, one by one.
pub open spec fn all_added<W>(list: Multi<Node<W>>, path: Seq<PathEntry>, n: nat) -> Seq<EventView<W>>
    decreases n,
{
    if n == 0 {
        Seq::empty()
    } else {
        all_added(list, path, (n - 1) as nat) + added_events(
            list.nodes@[n - 1],
            path.push(PathEntry::Key(list.keys@[n - 1])),
            (n - 1) as usize,
        )
    }
}

/// Two keyed lists without a common key, in the same field of two nodes
/// of one shape: every child of the prior list is reported as removed,
/// once and in order; then every child of the current list is reported as
/// added, once and in order; and nothing else is reported.
pub proof fn lemma_disjoint_lists_remove_and_add<W>(
    curr: Node<W>,
    last: Node<W>,
    path: Seq<PathEntry>,
    i: int,
    c: Multi<Node<W>>,
    l: Multi<Node<W>>,
)
    requires
        curr.wf(),
        last.wf(),
        curr.same_shape(&last),
        curr matches Node::Element(a) && 0 <= i < a.fields@.len() && a.fields@[i].child == Child::Multi(
            c,
        ),
        last matches Node::Element(b) && i < b.fields@.len() && b.fields@[i].child == Child::Multi(l),
        forall|k: crate::key::KeyView| !(c.has(k) && l.has(k)),
    ensures
        field_events(curr, last, path, i) == all_removed(
            l,
            path.push(PathEntry::Field(curr->Element_0.fields@[i].name)),
            l.nodes@.len(),
        ) + all_added(
            c,
            path.push(PathEntry::Field(curr->Element_0.fields@[i].name)),
            c.nodes@.len(),
        ),
{
    let a = curr->Element_0;
    let b = last->Element_0;
    let here = path.push(PathEntry::Field(a.fields@[i].name));
    assert(a.fields@[i].child.wf());
    assert(b.fields@[i].child.wf());
    c.lemma_disjoint_keys(&l);
    lemma_gone_all(c, l, here, l.nodes@.len());
    lemma_present_all(curr, last, here, i, c, l, c.nodes@.len());
    assert(field_events(curr, last, path, i) =~= all_removed(l, here, l.nodes@.len()) + all_added(
        c,
        here,
        c.nodes@.len(),
    ));
}

/// Whether field `i` of two nodes holds two keyed lists without a common key.
pub open spec fn disjoint_lists<W>(curr: Node<W>, last: Node<W>, i: int) -> bool {
    match (curr, last) {
        (Node::Element(a), Node::Element(b)) => match (a.fields@[i].child, b.fields@[i].child) {
            (Child::Multi(c), Child::Multi(l)) => forall|k: crate::key::KeyView| !(c.has(k) && l.has(k)),
            _ => false,
        },
        _ => false,
    }
}

/// The removal of every child of the prior list and the addition of
/// every child of the current list, for each of the first `n` fields of
/// two nodes whose fields are keyed lists.
pub open spec fn removed_and_added<W>(curr: Node<W>, last: Node<W>, path: Seq<PathEntry>, n: nat) -> Seq<
    EventView<W>,
>
    decreases n,
{
    if n == 0 {
        Seq::empty()
    } else {
        match (curr, last) {
            (Node::Element(a), Node::Element(b)) => match (
                a.fields@[n - 1].child,
                b.fields@[n - 1].child,
            ) {
                (Child::Multi(c), Child::Multi(l)) => {
                    let here = path.push(PathEntry::Field(a.fields@[n - 1].name));
                    removed_and_added(curr, last, path, (n - 1) as nat) + all_removed(
                        l,
                        here,
                        l.nodes@.len(),
                    ) + all_added(c, here, c.nodes@.len())
                },
                _ => Seq::empty(),
            },
            _ => Seq::empty(),
        }
    }
}

/// Two trees of one shape and with equal attributes, whose fields are
/// keyed lists that share no key: between the hooks of the two roots,
/// every child of the prior tree is reported as removed and every child
/// of the current tree as added, once each and field by field, and no
/// change of attributes or of order is reported.
pub proof fn lemma_disjoint_trees_remove_and_add<W>(
    curr: Node<W>,
    last: Node<W>,
    path: Seq<PathEntry>,
    index: usize,
)
    requires
        curr.wf(),
        last.wf(),
        curr.same_shape(&last),
        curr matches Node::Element(a) && last matches Node::Element(b) && a.params@ == b.params@,
        forall|i: int|
            0 <= i < curr->Element_0.fields@.len() ==> #[trigger] disjoint_lists(curr, last, i),
    ensures
        change_events(curr, last, path, index) == removed_and_added(
            curr,
            last,
            path,
            curr->Element_0.fields@.len(),
        ),
{
    let n = curr->Element_0.fields@.len();
    lemma_disjoint_fields(curr, last, path, n);
    assert(change_events(curr, last, path, index) =~= fields_events(curr, last, path, n));
}

/// The first `n` fields of two such trees.
proof fn lemma_disjoint_fields<W>(curr: Node<W>, last: Node<W>, path: Seq<PathEntry>, n: nat)
    requires
        curr.wf(),
        last.wf(),
        curr.same_shape(&last),
        curr matches Node::Element(a) && n <= a.fields@.len(),
        forall|i: int|
            0 <= i < curr->Element_0.fields@.len() ==> #[trigger] disjoint_lists(curr, last, i),
    ensures
        fields_events(curr, last, path, n) == removed_and_added(curr, last, path, n),
    decreases n,
{
    if n > 0 {
        lemma_disjoint_fields(curr, last, path, (n - 1) as nat);
        assert(disjoint_lists(curr, last, n - 1));
        let a = curr->Element_0;
        let b = last->Element_0;
        let c = a.fields@[n - 1].child->Multi_0;
        let l = b.fields@[n - 1].child->Multi_0;
        lemma_disjoint_lists_remove_and_add(curr, last, path, n - 1, c, l);
        let here = path.push(PathEntry::Field(a.fields@[n - 1].name));
        assert(fields_events(curr, last, path, n) =~= removed_and_added(curr, last, path, n));
    }
}

/// Where every child of the prior list is gone, the events of the first
/// `k` records are the removal of the first `k` children.
proof fn lemma_gone_all<W>(c: Multi<Node<W>>, l: Multi<Node<W>>, path: Seq<PathEntry>, k: nat)
    requires
        l.wf(),
        k <= l.nodes@.len(),
        c.removed(&l) == Seq::new(l.keys@.len(), |j: int| l.removed_record(j)),
    ensures
        gone_events(c.removed(&l), path, k) == all_removed(l, path, k),
    decreases k,
{
    if k > 0 {
        lemma_gone_all(c, l, path, (k - 1) as nat);
    }
}

/// Where no child of the current list has a counterpart, the events of
/// the first `n` children are their addition.
proof fn lemma_present_all<W>(
    curr: Node<W>,
    last: Node<W>,
    path: Seq<PathEntry>,
    i: int,
    c: Multi<Node<W>>,
    l: Multi<Node<W>>,
    n: nat,
)
    requires
        c.wf(),
        l.wf(),
        curr matches Node::Element(a) && 0 <= i < a.fields@.len() && a.fields@[i].child == Child::Multi(
            c,
        ),
        last matches Node::Element(b) && i < b.fields@.len() && b.fields@[i].child == Child::Multi(l),
        forall|k: crate::key::KeyView| !(c.has(k) && l.has(k)),
        n <= c.nodes@.len(),
    ensures
        present_events(curr, last, path, i, n) == all_added(c, path, n),
    decreases n,
{
    if n > 0 {
        lemma_present_all(curr, last, path, i, c, l, (n - 1) as nat);
        c.lemma_position(n - 1);
    }
}

} // verus!
