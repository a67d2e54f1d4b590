//! Walks over a tree that hand out every node with its path: parents
//! before their children, or children before their parents.

use vstd::prelude::*;
use crate::diff::Path;
use crate::diff::PathEntry;
use crate::diff::SimplePathFrame;
use crate::node::Child;
use crate::node::Node;

verus! {

/// A node met on a walk: its path from the root, its position among its
/// siblings, and the node.
#[derive(Debug)]
pub struct Visit<'a, W> {
    pub path: Path,
    pub index: usize,
    pub node: &'a Node<W>,
}

/// A node met on a walk, with its path as a sequence of steps.
pub struct VisitView<W> {
    pub path: Seq<PathEntry>,
    pub index: usize,
    pub node: Node<W>,
}

impl<'a, W> View for Visit<'a, W> {
    type V = VisitView<W>;

    open spec fn view(&self) -> VisitView<W> {
        VisitView { path: self.path.path@, index: self.index, node: *self.node }
    }
}

/// The views of a list of visits.
pub open spec fn visits_view<W>(visits: Seq<Visit<W>>) -> Seq<VisitView<W>> {
    visits.map_values(|v: Visit<W>| v@)
}

/// The nodes of a tree in the order of a walk: a node stands before all
/// below it where `enter` holds, and after all below it where not. Fields
/// are walked in their order, and the children of a field in theirs.
pub open spec fn walk<W>(node: Node<W>, path: Seq<PathEntry>, index: usize, enter: bool) -> Seq<
    VisitView<W>,
>
    decreases node, 3int, 0nat,
{
    let here = seq![VisitView { path, index, node }];
    let below = match node {
        Node::Widget(_) => Seq::empty(),
        Node::Element(e) => walk_fields(node, path, e.fields@.len(), enter),
    };
    if enter {
        here + below
    } else {
        below + here
    }
}

/// The walk over the first `n` fields of a node.
pub open spec fn walk_fields<W>(node: Node<W>, path: Seq<PathEntry>, n: nat, enter: bool) -> Seq<
    VisitView<W>,
>
    decreases node, 2int, n,
{
    if n == 0 {
        Seq::empty()
    } else {
        walk_fields(node, path, (n - 1) as nat, enter) + walk_field(node, path, n - 1, enter)
    }
}

/// The walk over field `i` of a node.
pub open spec fn walk_field<W>(node: Node<W>, path: Seq<PathEntry>, i: int, enter: bool) -> Seq<
    VisitView<W>,
>
    decreases node, 1int, 0nat,
{
    match node {
        Node::Widget(_) => Seq::empty(),
        Node::Element(e) => if 0 <= i < e.fields@.len() {
            let path = path.push(PathEntry::Field(e.fields@[i].name));
            match e.fields@[i].child {
                Child::Single(s) => walk(*s.node, path.push(PathEntry::Empty), 0, enter),
                Child::Optional(o) => match o.node {
                    Some(n) => walk(*n, path.push(PathEntry::Empty), 0, enter),
                    None => Seq::empty(),
                },
                Child::Multi(m) => walk_children(node, path, i, m.nodes@.len(), enter),
            }
        } else {
            Seq::empty()
        },
    }
}

/// The walk over the first `n` children of the keyed list in field `i` of
/// a node; `path` ends with the field.
pub open spec fn walk_children<W>(
    node: Node<W>,
    path: Seq<PathEntry>,
    i: int,
    n: nat,
    enter: bool,
) -> Seq<VisitView<W>>
    decreases node, 0int, n,
{
    match node {
        Node::Widget(_) => Seq::empty(),
        Node::Element(e) => if 0 <= i < e.fields@.len() {
            match e.fields@[i].child {
                Child::Multi(m) => if 0 < n <= m.nodes@.len() && n <= m.keys@.len() {
                    walk_children(node, path, i, (n - 1) as nat, enter) + walk(
                        m.nodes@[n - 1],
                        path.push(PathEntry::Key(m.keys@[n - 1])),
                        (n - 1) as usize,
                        enter,
                    )
                } else {
                    Seq::empty()
                },
                _ => Seq::empty(),
            }
        } else {
            Seq::empty()
        },
    }
}

/// Appends a visit to a list.
fn meet<'a, W>(out: &mut Vec<Visit<'a, W>>, v: Visit<'a, W>)
    ensures
        visits_view(final(out)@) == visits_view(old(out)@).push(v@),
{
    out.push(v);
    assert(visits_view(out@) =~= visits_view(old(out)@).push(v@));
}

/// Appends the walk over a node and all below it.
#[verifier::loop_isolation(false)]
fn visit<'a, W>(
    node: &'a Node<W>,
    frame: &SimplePathFrame,
    index: usize,
    enter: bool,
    out: &mut Vec<Visit<'a, W>>,
)
    requires
        node.wf(),
    ensures
        visits_view(final(out)@) == visits_view(old(out)@) + walk(*node, frame.steps(), index, enter),
    decreases node,
{
    let ghost base = visits_view(out@);
    let ghost path = frame.steps();
    if enter {
        meet(out, Visit { path: frame.to_steps(), index, node });
    }
    let ghost start = visits_view(out@);
    match node {
        Node::Widget(_) => {},
        Node::Element(e) => {
            let mut i: usize = 0;
            assert(visits_view(out@) =~= start + walk_fields(*node, path, 0, enter));
            while i < e.fields.len()
                invariant
                    i <= e.fields@.len(),
                    visits_view(out@) == start + walk_fields(*node, path, i as nat, enter),
                decreases e.fields@.len() - i,
            {
                let ghost before = visits_view(out@);
                let field = &e.fields[i];
                let field_frame = frame.add_field(field.name);
                assert(field.child.wf());
                match &field.child {
                    Child::Single(s) => {
                        let child_frame = field_frame.add_empty();
                        visit(s.get(), &child_frame, 0, enter, out);
                    },
                    Child::Optional(o) => {
                        match o.get() {
                            Some(n) => {
                                let child_frame = field_frame.add_empty();
                                visit(n, &child_frame, 0, enter, out);
                            },
                            None => {
                                assert(visits_view(out@) =~= before + walk_field(
                                    *node,
                                    path,
                                    i as int,
                                    enter,
                                ));
                            },
                        }
                    },
                    Child::Multi(m) => {
                        let mut j: usize = 0;
                        assert(visits_view(out@) =~= before + walk_children(
                            *node,
                            field_frame.steps(),
                            i as int,
                            0,
                            enter,
                        ));
                        while j < m.nodes.len()
                            invariant
                                j <= m.nodes@.len(),
                                visits_view(out@) == before + walk_children(
                                    *node,
                                    field_frame.steps(),
                                    i as int,
                                    j as nat,
                                    enter,
                                ),
                            decreases m.nodes@.len() - j,
                        {
                            let child_frame = field_frame.add_key(m.keys[j].clone());
                            visit(&m.nodes[j], &child_frame, j, enter, out);
                            assert(visits_view(out@) =~= before + walk_children(
                                *node,
                                field_frame.steps(),
                                i as int,
                                (j + 1) as nat,
                                enter,
                            ));
                            j += 1;
                        }
                    },
                }
                assert(visits_view(out@) == before + walk_field(*node, path, i as int, enter));
                assert(visits_view(out@) =~= start + walk_fields(*node, path, (i + 1) as nat, enter));
                i += 1;
            }
        },
    }
    if !enter {
        meet(out, Visit { path: frame.to_steps(), index, node });
    }
    assert(visits_view(out@) =~= base + walk(*node, path, index, enter));
}

/// Every node of a tree with its path, each node before all below it.
pub fn visit_enter<'a, W>(root: &'a Node<W>) -> (r: Vec<Visit<'a, W>>)
    requires
        root.wf(),
    ensures
        visits_view(r@) == walk(*root, Seq::empty(), 0, true),
{
    let mut out: Vec<Visit<'a, W>> = Vec::new();
    let frame = SimplePathFrame::new();
    assert(visits_view(out@) =~= Seq::empty());
    visit(root, &frame, 0, true, &mut out);
    assert(visits_view(out@) =~= walk(*root, Seq::empty(), 0, true));
    out
}

/// Every node of a tree with its path, each node after all below it.
pub fn visit_exit<'a, W>(root: &'a Node<W>) -> (r: Vec<Visit<'a, W>>)
    requires
        root.wf(),
    ensures
        visits_view(r@) == walk(*root, Seq::empty(), 0, false),
{
    let mut out: Vec<Visit<'a, W>> = Vec::new();
    let frame = SimplePathFrame::new();
    assert(visits_view(out@) =~= Seq::empty());
    visit(root, &frame, 0, false, &mut out);
    assert(visits_view(out@) =~= walk(*root, Seq::empty(), 0, false));
    out
}

} // verus!
