//! The difference between two trees, as the list of events that a
//! consumer is told of.

use vstd::prelude::*;
use crate::child::Delta;
use crate::child::Multi;
use crate::diff::Context;
use crate::diff::Differ;
use crate::diff::Path;
use crate::diff::PathEntry;
use crate::diff::SimplePathFrame;
use crate::key::text_equal;
use crate::node::Child;
use crate::node::Element;
use crate::node::Node;

verus! {

/// One thing that a consumer is told of. The four hooks stand around the
/// events of a node; the others report a change.
#[derive(Debug)]
pub enum Event<'a, W> {
    EnterCurr { path: Path, node: &'a Node<W> },
    EnterLast { path: Path, node: &'a Node<W> },
    ExitCurr { path: Path, node: &'a Node<W> },
    ExitLast { path: Path, node: &'a Node<W> },
    Added { path: Path, index: usize, node: &'a Node<W> },
    Removed { path: Path, index: usize, node: &'a Node<W> },
    Replaced { path: Path, index: usize, curr: &'a Node<W>, last: &'a Node<W> },
    ParamsChanged { path: Path, curr: &'a Node<W>, last: &'a Node<W> },
    Reordered { path: Path, pairs: Vec<(usize, usize)> },
}

/// An event, with its path as a sequence of steps and its nodes by value.
pub enum EventView<W> {
    EnterCurr { path: Seq<PathEntry>, node: Node<W> },
    EnterLast { path: Seq<PathEntry>, node: Node<W> },
    ExitCurr { path: Seq<PathEntry>, node: Node<W> },
    ExitLast { path: Seq<PathEntry>, node: Node<W> },
    Added { path: Seq<PathEntry>, index: usize, node: Node<W> },
    Removed { path: Seq<PathEntry>, index: usize, node: Node<W> },
    Replaced { path: Seq<PathEntry>, index: usize, curr: Node<W>, last: Node<W> },
    ParamsChanged { path: Seq<PathEntry>, curr: Node<W>, last: Node<W> },
    Reordered { path: Seq<PathEntry>, pairs: Seq<(usize, usize)> },
}

impl<W> EventView<W> {
    /// Whether the event is one of the four hooks, which report no change.
    pub open spec fn is_hook(self) -> bool {
        self is EnterCurr || self is EnterLast || self is ExitCurr || self is ExitLast
    }
}

impl<'a, W> View for Event<'a, W> {
    type V = EventView<W>;

    open spec fn view(&self) -> EventView<W> {
        match *self {
            Event::EnterCurr { path, node } => EventView::EnterCurr { path: path.path@, node: *node },
            Event::EnterLast { path, node } => EventView::EnterLast { path: path.path@, node: *node },
            Event::ExitCurr { path, node } => EventView::ExitCurr { path: path.path@, node: *node },
            Event::ExitLast { path, node } => EventView::ExitLast { path: path.path@, node: *node },
            Event::Added { path, index, node } => EventView::Added {
                path: path.path@,
                index,
                node: *node,
            },
            Event::Removed { path, index, node } => EventView::Removed {
                path: path.path@,
                index,
                node: *node,
            },
            Event::Replaced { path, index, curr, last } => EventView::Replaced {
                path: path.path@,
                index,
                curr: *curr,
                last: *last,
            },
            Event::ParamsChanged { path, curr, last } => EventView::ParamsChanged {
                path: path.path@,
                curr: *curr,
                last: *last,
            },
            Event::Reordered { path, pairs } => EventView::Reordered { path: path.path@, pairs: pairs@ },
        }
    }
}

/// The views of a list of events.
pub open spec fn events_view<W>(events: Seq<Event<W>>) -> Seq<EventView<W>> {
    events.map_values(|e: Event<W>| e@)
}

/// The events of a node that only the current tree has.
pub open spec fn added_events<W>(node: Node<W>, path: Seq<PathEntry>, index: usize) -> Seq<
    EventView<W>,
> {
    seq![
        EventView::EnterCurr { path, node },
        EventView::Added { path, index, node },
        EventView::ExitCurr { path, node },
    ]
}

/// The events of a node that only the prior tree has.
pub open spec fn removed_events<W>(node: Node<W>, path: Seq<PathEntry>, index: usize) -> Seq<
    EventView<W>,
> {
    seq![
        EventView::EnterLast { path, node },
        EventView::Removed { path, index, node },
        EventView::ExitLast { path, node },
    ]
}

/// The removal of a node of the prior tree and of all that stands below
/// it: the node first, then its descendants, field by field and child by
/// child.
pub open spec fn removed_subtree<W>(node: Node<W>, path: Seq<PathEntry>, index: usize) -> Seq<
    EventView<W>,
>
    decreases node, 4int, 0nat,
{
    seq![EventView::EnterLast { path, node }, EventView::Removed { path, index, node }]
        + removed_below(node, path) + seq![EventView::ExitLast { path, node }]
}

/// The removal of all that stands below a node of the prior tree.
pub open spec fn removed_below<W>(node: Node<W>, path: Seq<PathEntry>) -> Seq<EventView<W>>
    decreases node, 3int, 0nat,
{
    match node {
        Node::Widget(_) => Seq::empty(),
        Node::Element(e) => removed_fields(node, path, e.fields@.len()),
    }
}

/// The removal of all that stands in the first `n` fields of a node.
pub open spec fn removed_fields<W>(node: Node<W>, path: Seq<PathEntry>, n: nat) -> Seq<EventView<W>>
    decreases node, 2int, n,
{
    if n == 0 {
        Seq::empty()
    } else {
        removed_fields(node, path, (n - 1) as nat) + removed_field(node, path, n - 1)
    }
}

/// The removal of all that stands in field `i` of a node.
pub open spec fn removed_field<W>(node: Node<W>, path: Seq<PathEntry>, i: int) -> Seq<EventView<W>>
    decreases node, 1int, 0nat,
{
    match node {
        Node::Widget(_) => Seq::empty(),
        Node::Element(e) => if 0 <= i < e.fields@.len() {
            let path = path.push(PathEntry::Field(e.fields@[i].name));
            match e.fields@[i].child {
                Child::Single(s) => removed_subtree(*s.node, path.push(PathEntry::Empty), 0),
                Child::Optional(o) => match o.node {
                    Some(n) => removed_subtree(*n, path.push(PathEntry::Empty), 0),
                    None => Seq::empty(),
                },
                Child::Multi(m) => removed_children(node, path, i, m.nodes@.len()),
            }
        } else {
            Seq::empty()
        },
    }
}

/// The removal of the first `n` children of the keyed list in field `i`
/// of a node; `path` ends with the field.
pub open spec fn removed_children<W>(node: Node<W>, path: Seq<PathEntry>, i: int, n: nat) -> Seq<
    EventView<W>,
>
    decreases node, 0int, n,
{
    match node {
        Node::Widget(_) => Seq::empty(),
        Node::Element(e) => if 0 <= i < e.fields@.len() {
            match e.fields@[i].child {
                Child::Multi(m) => if 0 < n <= m.nodes@.len() && n <= m.keys@.len() {
                    removed_children(node, path, i, (n - 1) as nat) + removed_subtree(
                        m.nodes@[n - 1],
                        path.push(PathEntry::Key(m.keys@[n - 1])),
                        (n - 1) as usize,
                    )
                } else {
                    Seq::empty()
                },
                _ => Seq::empty(),
            }
        } else {
            Seq::empty()
        },
    }
}

/// The events of the first `k` of the records of children that only the
/// prior list has; `path` ends with the field of the list.
pub open spec fn gone_events<W>(records: Seq<Delta<Node<W>>>, path: Seq<PathEntry>, k: nat) -> Seq<
    EventView<W>,
>
    decreases k,
{
    if k == 0 || k > records.len() {
        Seq::empty()
    } else {
        gone_events(records, path, (k - 1) as nat) + match records[k - 1].2 {
            Some((j, n)) => removed_events(*n, path.push(PathEntry::Key(*records[k - 1].0)), j),
            None => Seq::empty(),
        }
    }
}

/// The events between the node `curr` and the node `last` that stood in
/// its place: the hooks of both, and between them what changed.
pub open spec fn node_events<W>(curr: Node<W>, last: Node<W>, path: Seq<PathEntry>, index: usize) -> Seq<
    EventView<W>,
>
    decreases curr, 4int, 0nat,
{
    seq![EventView::EnterCurr { path, node: curr }, EventView::EnterLast { path, node: last }]
        + change_events(curr, last, path, index) + seq![
        EventView::ExitCurr { path, node: curr },
        EventView::ExitLast { path, node: last },
    ]
}

/// What changed between `curr` and `last`. Nodes of different shapes: all
/// below `last` is removed, then `curr` replaces `last`. Nodes of one
/// shape: their attributes are compared, then their fields in order.
pub open spec fn change_events<W>(curr: Node<W>, last: Node<W>, path: Seq<PathEntry>, index: usize) -> Seq<
    EventView<W>,
>
    decreases curr, 3int, 0nat,
{
    match (curr, last) {
        (Node::Element(a), Node::Element(b)) => if curr.same_shape(&last) {
            let params = if a.params@ == b.params@ {
                Seq::empty()
            } else {
                seq![EventView::ParamsChanged { path, curr, last }]
            };
            params + fields_events(curr, last, path, a.fields@.len())
        } else {
            removed_below(last, path) + seq![EventView::Replaced { path, index, curr, last }]
        },
        _ => removed_below(last, path) + seq![EventView::Replaced { path, index, curr, last }],
    }
}

/// What changed in the first `n` fields of two nodes of one shape.
pub open spec fn fields_events<W>(curr: Node<W>, last: Node<W>, path: Seq<PathEntry>, n: nat) -> Seq<
    EventView<W>,
>
    decreases curr, 2int, n,
{
    if n == 0 {
        Seq::empty()
    } else {
        fields_events(curr, last, path, (n - 1) as nat) + field_events(curr, last, path, n - 1)
    }
}

/// What changed in field `i` of two nodes of one shape. A single child is
/// compared with the prior one. An optional child is compared with the
/// prior one, or added, or removed. The children of a keyed list: those
/// that only the prior list has are removed; then each child of the
/// current list is compared with its counterpart, or added; then the
/// exchanges that reconcile the two orders are reported, if there are any.
pub open spec fn field_events<W>(curr: Node<W>, last: Node<W>, path: Seq<PathEntry>, i: int) -> Seq<
    EventView<W>,
>
    decreases curr, 1int, 0nat,
{
    match (curr, last) {
        (Node::Element(a), Node::Element(b)) => if 0 <= i < a.fields@.len() && i < b.fields@.len() {
            let path = path.push(PathEntry::Field(a.fields@[i].name));
            match (a.fields@[i].child, b.fields@[i].child) {
                (Child::Single(c), Child::Single(l)) => node_events(
                    *c.node,
                    *l.node,
                    path.push(PathEntry::Empty),
                    0,
                ),
                (Child::Optional(c), Child::Optional(l)) => match (c.node, l.node) {
                    (Some(c), Some(l)) => node_events(*c, *l, path.push(PathEntry::Empty), 0),
                    (Some(c), None) => added_events(*c, path.push(PathEntry::Empty), 0),
                    (None, Some(l)) => removed_events(*l, path.push(PathEntry::Empty), 0),
                    (None, None) => Seq::empty(),
                },
                (Child::Multi(c), Child::Multi(l)) => {
                    let gone = c.removed(&l);
                    let moved = c.reordered(&l);
                    gone_events(gone, path, gone.len()) + present_events(
                        curr,
                        last,
                        path,
                        i,
                        c.nodes@.len(),
                    ) + if moved.len() > 0 {
                        seq![EventView::Reordered { path, pairs: moved }]
                    } else {
                        Seq::empty()
                    }
                },
                _ => Seq::empty(),
            }
        } else {
            Seq::empty()
        },
        _ => Seq::empty(),
    }
}

/// The events of the first `n` children of the keyed list in field `i` of
/// `curr`, each compared with its counterpart in the same field of `last`,
/// or added; `path` ends with the field.
pub open spec fn present_events<W>(
    curr: Node<W>,
    last: Node<W>,
    path: Seq<PathEntry>,
    i: int,
    n: nat,
) -> Seq<EventView<W>>
    decreases curr, 0int, n,
{
    match (curr, last) {
        (Node::Element(a), Node::Element(b)) => if 0 <= i < a.fields@.len() && i < b.fields@.len() {
            match (a.fields@[i].child, b.fields@[i].child) {
                (Child::Multi(c), Child::Multi(l)) => if 0 < n <= c.nodes@.len() && n <= c.keys@.len() {
                    let key = c.keys@[n - 1];
                    let here = path.push(PathEntry::Key(key));
                    present_events(curr, last, path, i, (n - 1) as nat) + if l.has(key@) {
                        node_events(
                            c.nodes@[n - 1],
                            l.nodes@[l.position_of(key@)],
                            here,
                            (n - 1) as usize,
                        )
                    } else {
                        added_events(c.nodes@[n - 1], here, (n - 1) as usize)
                    }
                } else {
                    Seq::empty()
                },
                _ => Seq::empty(),
            }
        } else {
            Seq::empty()
        },
        _ => Seq::empty(),
    }
}

/// Appends an event to a list.
fn emit<'a, W>(out: &mut Vec<Event<'a, W>>, e: Event<'a, W>)
    ensures
        events_view(final(out)@) == events_view(old(out)@).push(e@),
{
    out.push(e);
    assert(events_view(out@) =~= events_view(old(out)@).push(e@));
}

/// Appends the events of a node that only the current tree has.
fn emit_added<'a, W>(
    node: &'a Node<W>,
    frame: &SimplePathFrame,
    index: usize,
    out: &mut Vec<Event<'a, W>>,
)
    ensures
        events_view(final(out)@) == events_view(old(out)@) + added_events(
            *node,
            frame.steps(),
            index,
        ),
{
    emit(out, Event::EnterCurr { path: frame.to_steps(), node });
    emit(out, Event::Added { path: frame.to_steps(), index, node });
    emit(out, Event::ExitCurr { path: frame.to_steps(), node });
    assert(events_view(out@) =~= events_view(old(out)@) + added_events(*node, frame.steps(), index));
}

/// Appends the events of a node that only the prior tree has.
fn emit_removed<'a, W>(
    node: &'a Node<W>,
    frame: &SimplePathFrame,
    index: usize,
    out: &mut Vec<Event<'a, W>>,
)
    ensures
        events_view(final(out)@) == events_view(old(out)@) + removed_events(
            *node,
            frame.steps(),
            index,
        ),
{
    emit(out, Event::EnterLast { path: frame.to_steps(), node });
    emit(out, Event::Removed { path: frame.to_steps(), index, node });
    emit(out, Event::ExitLast { path: frame.to_steps(), node });
    assert(events_view(out@) =~= events_view(old(out)@) + removed_events(
        *node,
        frame.steps(),
        index,
    ));
}

/// Appends the removal of a node of the prior tree and of all below it.
fn remove_subtree<'a, W>(
    node: &'a Node<W>,
    frame: &SimplePathFrame,
    index: usize,
    out: &mut Vec<Event<'a, W>>,
)
    requires
        node.wf(),
    ensures
        events_view(final(out)@) == events_view(old(out)@) + removed_subtree(
            *node,
            frame.steps(),
            index,
        ),
    decreases node, 1int,
{
    emit(out, Event::EnterLast { path: frame.to_steps(), node });
    emit(out, Event::Removed { path: frame.to_steps(), index, node });
    remove_below(node, frame, out);
    emit(out, Event::ExitLast { path: frame.to_steps(), node });
    assert(events_view(out@) =~= events_view(old(out)@) + removed_subtree(
        *node,
        frame.steps(),
        index,
    ));
}

/// Appends the removal of all that stands below a node of the prior tree.
#[verifier::loop_isolation(false)]
fn remove_below<'a, W>(node: &'a Node<W>, frame: &SimplePathFrame, out: &mut Vec<Event<'a, W>>)
    requires
        node.wf(),
    ensures
        events_view(final(out)@) == events_view(old(out)@) + removed_below(*node, frame.steps()),
    decreases node, 0int,
{
    let ghost base = events_view(out@);
    let ghost path = frame.steps();
    match node {
        Node::Widget(_) => {
            assert(events_view(out@) =~= base + removed_below(*node, path));
        },
        Node::Element(e) => {
            let mut i: usize = 0;
            assert(events_view(out@) =~= base + removed_fields(*node, path, 0));
            while i < e.fields.len()
                invariant
                    i <= e.fields@.len(),
                    events_view(out@) == base + removed_fields(*node, path, i as nat),
                decreases e.fields@.len() - i,
            {
                let ghost before = events_view(out@);
                let field = &e.fields[i];
                let field_frame = frame.add_field(field.name);
                match &field.child {
                    Child::Single(s) => {
                        let child_frame = field_frame.add_empty();
                        remove_subtree(s.get(), &child_frame, 0, out);
                    },
                    Child::Optional(o) => {
                        match o.get() {
                            Some(n) => {
                                let child_frame = field_frame.add_empty();
                                remove_subtree(n, &child_frame, 0, out);
                            },
                            None => {
                                assert(events_view(out@) =~= before + removed_field(*node, path, i as int));
                            },
                        }
                    },
                    Child::Multi(m) => {
                        let mut j: usize = 0;
                        assert(events_view(out@) =~= before + removed_children(
                            *node,
                            field_frame.steps(),
                            i as int,
                            0,
                        ));
                        while j < m.nodes.len()
                            invariant
                                j <= m.nodes@.len(),
                                events_view(out@) == before + removed_children(
                                    *node,
                                    field_frame.steps(),
                                    i as int,
                                    j as nat,
                                ),
                            decreases m.nodes@.len() - j,
                        {
                            let ghost so_far = events_view(out@);
                            let child_frame = field_frame.add_key(m.keys[j].clone());
                            remove_subtree(&m.nodes[j], &child_frame, j, out);
                            assert(events_view(out@) =~= before + removed_children(
                                *node,
                                field_frame.steps(),
                                i as int,
                                (j + 1) as nat,
                            ));
                            j += 1;
                        }
                    },
                }
                assert(events_view(out@) == before + removed_field(*node, path, i as int));
                assert(events_view(out@) =~= base + removed_fields(*node, path, (i + 1) as nat));
                i += 1;
            }
        },
    }
}

/// Appends the events between a node of the current tree and the node
/// that stood in its place in the prior tree.
fn diff_node<'a, W>(
    curr: &'a Node<W>,
    last: &'a Node<W>,
    frame: &SimplePathFrame,
    index: usize,
    out: &mut Vec<Event<'a, W>>,
)
    requires
        curr.wf(),
        last.wf(),
    ensures
        events_view(final(out)@) == events_view(old(out)@) + node_events(
            *curr,
            *last,
            frame.steps(),
            index,
        ),
    decreases curr, 2int,
{
    emit(out, Event::EnterCurr { path: frame.to_steps(), node: curr });
    emit(out, Event::EnterLast { path: frame.to_steps(), node: last });
    diff_change(curr, last, frame, index, out);
    emit(out, Event::ExitCurr { path: frame.to_steps(), node: curr });
    emit(out, Event::ExitLast { path: frame.to_steps(), node: last });
    assert(events_view(out@) =~= events_view(old(out)@) + node_events(
        *curr,
        *last,
        frame.steps(),
        index,
    ));
}

/// Appends what changed between two nodes in one place.
#[verifier::loop_isolation(false)]
fn diff_change<'a, W>(
    curr: &'a Node<W>,
    last: &'a Node<W>,
    frame: &SimplePathFrame,
    index: usize,
    out: &mut Vec<Event<'a, W>>,
)
    requires
        curr.wf(),
        last.wf(),
    ensures
        events_view(final(out)@) == events_view(old(out)@) + change_events(
            *curr,
            *last,
            frame.steps(),
            index,
        ),
    decreases curr, 1int,
{
    let ghost base = events_view(out@);
    let ghost path = frame.steps();
    match (curr, last) {
        (Node::Element(a), Node::Element(b)) => {
            if curr.has_shape_of(last) {
                if !text_equal(a.params.as_str(), b.params.as_str()) {
                    emit(out, Event::ParamsChanged { path: frame.to_steps(), curr, last });
                }
                let ghost start = events_view(out@);
                let mut i: usize = 0;
                assert(events_view(out@) =~= start + fields_events(*curr, *last, path, 0));
                while i < a.fields.len()
                    invariant
                        i <= a.fields@.len(),
                        events_view(out@) == start + fields_events(*curr, *last, path, i as nat),
                    decreases a.fields@.len() - i,
                {
                    let ghost before = events_view(out@);
                    diff_field(curr, last, frame, i, out);
                    assert(events_view(out@) =~= start + fields_events(
                        *curr,
                        *last,
                        path,
                        (i + 1) as nat,
                    ));
                    i += 1;
                }
                assert(events_view(out@) =~= base + change_events(*curr, *last, path, index));
            } else {
                remove_below(last, frame, out);
                emit(out, Event::Replaced { path: frame.to_steps(), index, curr, last });
                assert(events_view(out@) =~= base + change_events(*curr, *last, path, index));
            }
        },
        _ => {
            remove_below(last, frame, out);
            emit(out, Event::Replaced { path: frame.to_steps(), index, curr, last });
            assert(events_view(out@) =~= base + change_events(*curr, *last, path, index));
        },
    }
}

/// Appends what changed in field `i` of two nodes of one shape.
#[verifier::loop_isolation(false)]
fn diff_field<'a, W>(
    curr: &'a Node<W>,
    last: &'a Node<W>,
    frame: &SimplePathFrame,
    i: usize,
    out: &mut Vec<Event<'a, W>>,
)
    requires
        curr.wf(),
        last.wf(),
        curr.same_shape(last),
        curr matches Node::Element(e) && i < e.fields@.len(),
    ensures
        events_view(final(out)@) == events_view(old(out)@) + field_events(
            *curr,
            *last,
            frame.steps(),
            i as int,
        ),
    decreases curr, 0int,
{
    let ghost base = events_view(out@);
    let ghost path = frame.steps();
    match (curr, last) {
        (Node::Element(a), Node::Element(b)) => {
            let field_frame = frame.add_field(a.fields[i].name);
            let ghost here = field_frame.steps();
            assert(a.fields@[i as int].child.kind() == b.fields@[i as int].child.kind());
            match (&a.fields[i].child, &b.fields[i].child) {
                (Child::Single(c), Child::Single(l)) => {
                    let child_frame = field_frame.add_empty();
                    diff_node(c.get(), l.get(), &child_frame, 0, out);
                },
                (Child::Optional(c), Child::Optional(l)) => {
                    let child_frame = field_frame.add_empty();
                    match (c.get(), l.get()) {
                        (Some(c), Some(l)) => {
                            diff_node(c, l, &child_frame, 0, out);
                        },
                        (Some(c), None) => {
                            emit_added(c, &child_frame, 0, out);
                        },
                        (None, Some(l)) => {
                            emit_removed(l, &child_frame, 0, out);
                        },
                        (None, None) => {
                            assert(events_view(out@) =~= base + field_events(*curr, *last, path, i as int));
                        },
                    }
                },
                (Child::Multi(c), Child::Multi(l)) => {
                    let records = c.diff(l);
                    let ghost gone = c.removed(l);
                    let ghost present = c.present(l);
                    let mut k: usize = 0;
                    assert(events_view(out@) =~= base + gone_events(gone, here, 0));
                    while k < records.len() && records[k].1.is_none()
                        invariant
                            k <= gone.len(),
                            events_view(out@) == base + gone_events(gone, here, k as nat),
                        decreases records@.len() - k,
                    {
                        let ghost before = events_view(out@);
                        let record = &records[k];
                        assert(records@[k as int] == gone[k as int]) by {
                            if k >= gone.len() {
                                assert(records@[k as int] == present[k - gone.len()]);
                            }
                        }
                        match record.2 {
                            Some((j, n)) => {
                                let child_frame = field_frame.add_key(record.0.clone());
                                emit_removed(n, &child_frame, j, out);
                            },
                            None => {},
                        }
                        assert(events_view(out@) =~= base + gone_events(gone, here, (k + 1) as nat));
                        k += 1;
                    }
                    assert(k == gone.len()) by {
                        if k < gone.len() {
                            assert(records@[k as int] == gone[k as int]);
                        }
                    }
                    let ghost after_gone = events_view(out@);
                    let removed = k;
                    let mut n: usize = 0;
                    assert(events_view(out@) =~= after_gone + present_events(*curr, *last, here, i as int, 0));
                    while n < c.nodes.len()
                        invariant
                            n <= c.nodes@.len(),
                            events_view(out@) == after_gone + present_events(
                                *curr,
                                *last,
                                here,
                                i as int,
                                n as nat,
                            ),
                        decreases c.nodes@.len() - n,
                    {
                        let ghost before = events_view(out@);
                        let record = &records[removed + n];
                        assert(records@[removed + n] == present[n as int]);
                        proof {
                            c.lemma_position(n as int);
                        }
                        let child_frame = field_frame.add_key(record.0.clone());
                        match (record.1, record.2) {
                            (Some((ci, cn)), Some((li, ln))) => {
                                diff_node(cn, ln, &child_frame, ci, out);
                            },
                            (Some((ci, cn)), None) => {
                                emit_added(cn, &child_frame, ci, out);
                            },
                            _ => {},
                        }
                        assert(events_view(out@) =~= after_gone + present_events(
                            *curr,
                            *last,
                            here,
                            i as int,
                            (n + 1) as nat,
                        ));
                        n += 1;
                    }
                    let moved = c.diff_reordered(l);
                    if moved.len() > 0 {
                        emit(out, Event::Reordered { path: field_frame.to_steps(), pairs: moved });
                    }
                    assert(events_view(out@) =~= base + field_events(*curr, *last, path, i as int));
                },
                _ => {},
            }
        },
        _ => {},
    }
}

/// The difference between the tree `curr` and the prior tree `last`, as the
/// events that a consumer is told of, in order. Neither tree holds a
/// placeholder.
pub fn diff<'a, W>(curr: &'a Node<W>, last: &'a Node<W>) -> (events: Vec<Event<'a, W>>)
    requires
        curr.wf(),
        last.wf(),
        curr.concrete(),
        last.concrete(),
    ensures
        events_view(events@) == node_events(*curr, *last, Seq::empty(), 0),
{
    let mut out: Vec<Event<'a, W>> = Vec::new();
    let root = SimplePathFrame::new();
    assert(events_view(out@) =~= Seq::empty());
    diff_node(curr, last, &root, 0, &mut out);
    assert(events_view(out@) =~= node_events(*curr, *last, Seq::empty(), 0));
    out
}

/// The difference between two trees, as `diff` gives it, where both trees
/// are well formed and neither holds a placeholder; `None` where not.
pub fn try_diff<'a, W>(curr: &'a Node<W>, last: &'a Node<W>) -> (r: Option<Vec<Event<'a, W>>>)
    ensures
        match r {
            Some(events) => curr.wf() && last.wf() && curr.concrete() && last.concrete()
                && events_view(events@) == node_events(*curr, *last, Seq::empty(), 0),
            None => !(curr.wf() && last.wf() && curr.concrete() && last.concrete()),
        },
{
    if curr.is_well_formed() && last.is_well_formed() && curr.is_concrete() && last.is_concrete() {
        Some(diff(curr, last))
    } else {
        None
    }
}

/// Whether an event is handed to the function that the consumer has for
/// its kind, with what the event holds: `differ` and `ctx` are the
/// consumer and its state as the call takes them up and leaves them.
pub open spec fn handed<'a, CTX, W, D: Differ<CTX, Node<W>>>(
    e: Event<'a, W>,
    differ: &mut D,
    ctx: &mut Context<CTX, Node<W>>,
) -> bool {
    match e {
        Event::EnterCurr { path, node } => call_ensures(D::on_enter_curr, (differ, ctx, &path, node), ()),
        Event::EnterLast { path, node } => call_ensures(D::on_enter_last, (differ, ctx, &path, node), ()),
        Event::ExitCurr { path, node } => call_ensures(D::on_exit_curr, (differ, ctx, &path, node), ()),
        Event::ExitLast { path, node } => call_ensures(D::on_exit_last, (differ, ctx, &path, node), ()),
        Event::Added { path, index, node } => call_ensures(D::diff_added, (differ, ctx, &path, index, node), ()),
        Event::Removed { path, index, node } => call_ensures(D::diff_removed, (differ, ctx, &path, index, node), ()),
        Event::Replaced { path, index, curr, last } => call_ensures(D::diff_replaced, (differ, ctx, &path, index, curr, last), ()),
        Event::ParamsChanged { path, curr, last } => call_ensures(D::diff_params_changed, (differ, ctx, &path, curr, last), ()),
        Event::Reordered { path, pairs } => call_ensures(D::diff_reordered, (differ, ctx, &path, &pairs), ()),
    }
}

/// Whether the sequences are fit to record `n` calls: `ds` and `cs`
/// hold the references to the consumer and to its state that each call
/// takes, `dv` and `cv` the consumer and its state before each call and
/// after the last.
pub open spec fn lined_up<CTX, W, D: Differ<CTX, Node<W>>>(
    ds: Seq<&mut D>,
    cs: Seq<&mut Context<CTX, Node<W>>>,
    dv: Seq<D>,
    cv: Seq<Context<CTX, Node<W>>>,
    n: nat,
) -> bool {
    ds.len() == n && cs.len() == n && dv.len() == n + 1 && cv.len() == n + 1
}

/// Tells a consumer of one event: the event is handed to the function
/// that the consumer has for its kind, with what the event holds, and
/// nothing else is done to the consumer or to its state.
pub fn tell<'a, CTX, W, D: Differ<CTX, Node<W>>>(
    event: &Event<'a, W>,
    ctx: &mut Context<CTX, Node<W>>,
    differ: &mut D,
)
    ensures
        exists|d: &mut D, c: &mut Context<CTX, Node<W>>| #[trigger]
            handed(*event, d, c) && *d == *old(differ) && *final(d) == *final(differ) && *c == *old(
                ctx,
            ) && *final(c) == *final(ctx),
{
    let ghost d0 = *differ;
    let ghost c0 = *ctx;
    match event {
        Event::EnterCurr { path, node } => {
            differ.on_enter_curr(ctx, path, node);
            proof {
                let (d, c) = choose|d: &mut D, c: &mut Context<CTX, Node<W>>| #[trigger]
                    call_ensures(D::on_enter_curr, (d, c, path, *node), ()) && *d == d0 && *final(d) == *differ
                        && *c == c0 && *final(c) == *ctx;
                assert(handed(*event, d, c));
            }
        },
        Event::EnterLast { path, node } => {
            differ.on_enter_last(ctx, path, node);
            proof {
                let (d, c) = choose|d: &mut D, c: &mut Context<CTX, Node<W>>| #[trigger]
                    call_ensures(D::on_enter_last, (d, c, path, *node), ()) && *d == d0 && *final(d) == *differ
                        && *c == c0 && *final(c) == *ctx;
                assert(handed(*event, d, c));
            }
        },
        Event::ExitCurr { path, node } => {
            differ.on_exit_curr(ctx, path, node);
            proof {
                let (d, c) = choose|d: &mut D, c: &mut Context<CTX, Node<W>>| #[trigger]
                    call_ensures(D::on_exit_curr, (d, c, path, *node), ()) && *d == d0 && *final(d) == *differ
                        && *c == c0 && *final(c) == *ctx;
                assert(handed(*event, d, c));
            }
        },
        Event::ExitLast { path, node } => {
            differ.on_exit_last(ctx, path, node);
            proof {
                let (d, c) = choose|d: &mut D, c: &mut Context<CTX, Node<W>>| #[trigger]
                    call_ensures(D::on_exit_last, (d, c, path, *node), ()) && *d == d0 && *final(d) == *differ
                        && *c == c0 && *final(c) == *ctx;
                assert(handed(*event, d, c));
            }
        },
        Event::Added { path, index, node } => {
            differ.diff_added(ctx, path, *index, node);
            proof {
                let (d, c) = choose|d: &mut D, c: &mut Context<CTX, Node<W>>| #[trigger]
                    call_ensures(D::diff_added, (d, c, path, *index, *node), ()) && *d == d0 && *final(d) == *differ
                        && *c == c0 && *final(c) == *ctx;
                assert(handed(*event, d, c));
            }
        },
        Event::Removed { path, index, node } => {
            differ.diff_removed(ctx, path, *index, node);
            proof {
                let (d, c) = choose|d: &mut D, c: &mut Context<CTX, Node<W>>| #[trigger]
                    call_ensures(D::diff_removed, (d, c, path, *index, *node), ()) && *d == d0 && *final(d) == *differ
                        && *c == c0 && *final(c) == *ctx;
                assert(handed(*event, d, c));
            }
        },
        Event::Replaced { path, index, curr, last } => {
            differ.diff_replaced(ctx, path, *index, curr, last);
            proof {
                let (d, c) = choose|d: &mut D, c: &mut Context<CTX, Node<W>>| #[trigger]
                    call_ensures(D::diff_replaced, (d, c, path, *index, *curr, *last), ()) && *d == d0 && *final(d) == *differ
                        && *c == c0 && *final(c) == *ctx;
                assert(handed(*event, d, c));
            }
        },
        Event::ParamsChanged { path, curr, last } => {
            differ.diff_params_changed(ctx, path, curr, last);
            proof {
                let (d, c) = choose|d: &mut D, c: &mut Context<CTX, Node<W>>| #[trigger]
                    call_ensures(D::diff_params_changed, (d, c, path, *curr, *last), ()) && *d == d0 && *final(d) == *differ
                        && *c == c0 && *final(c) == *ctx;
                assert(handed(*event, d, c));
            }
        },
        Event::Reordered { path, pairs } => {
            differ.diff_reordered(ctx, path, pairs);
            proof {
                let (d, c) = choose|d: &mut D, c: &mut Context<CTX, Node<W>>| #[trigger]
                    call_ensures(D::diff_reordered, (d, c, path, pairs), ()) && *d == d0 && *final(d) == *differ
                        && *c == c0 && *final(c) == *ctx;
                assert(handed(*event, d, c));
            }
        },
    }
}

/// Tells a consumer of the events of a list, one after the other and in
/// the order of the list: each event is handed to the function that the
/// consumer has for its kind, with what the event holds; each call takes
/// up the consumer and its state as the call before left them, the first
/// as they are given; and they are left as the last call leaves them.
pub fn notify<'a, CTX, W, D: Differ<CTX, Node<W>>>(
    events: &Vec<Event<'a, W>>,
    ctx: &mut Context<CTX, Node<W>>,
    differ: &mut D,
)
    ensures
        exists|
            ds: Seq<&mut D>,
            cs: Seq<&mut Context<CTX, Node<W>>>,
            dv: Seq<D>,
            cv: Seq<Context<CTX, Node<W>>>,
        |
            {
                &&& #[trigger] lined_up(ds, cs, dv, cv, events@.len())
                &&& dv[0] == *old(differ)
                &&& cv[0] == *old(ctx)
                &&& dv[events@.len() as int] == *final(differ)
                &&& cv[events@.len() as int] == *final(ctx)
                &&& forall|i: int|
                    0 <= i < events@.len() ==> #[trigger] handed(events@[i], ds[i], cs[i]) && *ds[i]
                        == dv[i] && *final(ds[i]) == dv[i + 1] && *cs[i] == cv[i] && *final(cs[i])
                        == cv[i + 1]
            },
{
    let ghost mut dv: Seq<D> = seq![*differ];
    let ghost mut cv: Seq<Context<CTX, Node<W>>> = seq![*ctx];
    let mut i: usize = 0;
    proof {
        assert(lined_up(Seq::<&mut D>::empty(), Seq::<&mut Context<CTX, Node<W>>>::empty(), dv, cv, 0));
    }
    while i < events.len()
        invariant
            i <= events@.len(),
            dv.len() == i + 1,
            cv.len() == i + 1,
            dv[0] == *old(differ),
            cv[0] == *old(ctx),
            dv[i as int] == *differ,
            cv[i as int] == *ctx,
            exists|ds: Seq<&mut D>, cs: Seq<&mut Context<CTX, Node<W>>>|
                {
                    &&& #[trigger] lined_up(ds, cs, dv, cv, i as nat)
                    &&& forall|k: int|
                        0 <= k < i ==> #[trigger] handed(events@[k], ds[k], cs[k]) && *ds[k] == dv[k]
                            && *final(ds[k]) == dv[k + 1] && *cs[k] == cv[k] && *final(cs[k])
                            == cv[k + 1]
                },
        decreases events@.len() - i,
    {
        let ghost dv0 = dv;
        let ghost cv0 = cv;
        tell(&events[i], ctx, differ);
        proof {
            dv = dv.push(*differ);
            cv = cv.push(*ctx);
            let (ds, cs) = choose|ds: Seq<&mut D>, cs: Seq<&mut Context<CTX, Node<W>>>|
                {
                    &&& #[trigger] lined_up(ds, cs, dv0, cv0, i as nat)
                    &&& forall|k: int|
                        0 <= k < i ==> #[trigger] handed(events@[k], ds[k], cs[k]) && *ds[k] == dv0[k]
                            && *final(ds[k]) == dv0[k + 1] && *cs[k] == cv0[k] && *final(cs[k])
                            == cv0[k + 1]
                };
            let (d, c) = choose|d: &mut D, c: &mut Context<CTX, Node<W>>| #[trigger]
                handed(events@[i as int], d, c) && *d == dv0[i as int] && *final(d) == *differ && *c
                    == cv0[i as int] && *final(c) == *ctx;
            let ds1 = ds.push(d);
            let cs1 = cs.push(c);
            assert(lined_up(ds1, cs1, dv, cv, (i + 1) as nat));
            assert forall|k: int| 0 <= k < i + 1 implies #[trigger] handed(events@[k], ds1[k], cs1[k])
                && *ds1[k] == dv[k] && *final(ds1[k]) == dv[k + 1] && *cs1[k] == cv[k]
                && *final(cs1[k]) == cv[k + 1] by {
                if k < i {
                    assert(handed(events@[k], ds[k], cs[k]));
                    assert(ds1[k] == ds[k] && cs1[k] == cs[k]);
                    assert(dv[k] == dv0[k] && dv[k + 1] == dv0[k + 1]);
                    assert(cv[k] == cv0[k] && cv[k + 1] == cv0[k + 1]);
                }
            }
        }
        i += 1;
    }
}

} // verus!
