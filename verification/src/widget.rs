//! Placeholders and their expansion: the pass that renders every
//! placeholder of a tree into an element before the tree is compared.

use vstd::prelude::*;
use crate::child::Multi;
use crate::child::Option as Optional;
use crate::child::Single;
use crate::child::key_views;
use crate::key::Key;
use crate::node::Child;
use crate::node::Element;
use crate::node::Field;
use crate::node::Node;

verus! {

/// What a placeholder holds: all that is needed to render it.
pub trait WidgetDataTrait<O> {
    /// The rendered subtree, or `None` where the prior rendering still holds.
    fn render(self) -> Option<O>;
}

/// A renderer: it turns an input into an output, or declines.
pub trait Widget: Sized {
    type Input;

    type Output;

    /// A renderer.
    fn new() -> Self;

    /// The rendering of `input`, or `None` where the prior rendering still holds.
    fn render(&self, input: Self::Input) -> Option<Self::Output>;
}

/// The input of the renderer `R`, held until it is rendered.
pub struct WidgetData<R: Widget>(pub R::Input);

impl<O, R: Widget<Output = O>> WidgetDataTrait<O> for WidgetData<R> {
    /// What a new renderer makes of the input.
    fn render(self) -> (r: Option<O>)
        ensures
            exists|renderer: R| #[trigger]
                call_ensures(R::new, (), renderer) && call_ensures(R::render, (&renderer, self.0), r),
    {
        let renderer = R::new();
        let r = renderer.render(self.0);
        assert(call_ensures(R::new, (), renderer) && call_ensures(R::render, (&renderer, self.0), r));
        r
    }
}

/// Why a tree could not be expanded.
#[derive(Clone, Copy, Debug, PartialEq, Eq, Structural)]
pub enum ExpandError {
    /// A renderer declined, and the prior tree holds nothing in that place.
    MissingPrior,
    /// A renderer declined, and the prior tree holds a placeholder in or
    /// below that place.
    UnexpandedPrior,
    /// A renderer returned a placeholder.
    RenderedPlaceholder,
    /// Renderings nested deeper than the given limit.
    TooDeep,
    /// A keyed list of a rendered tree lacks a key for a child, or holds a
    /// key twice.
    Malformed,
}

/// What stands in the place of a placeholder.
pub enum Resolved<W> {
    /// What the renderer returned; its own placeholders are still to be expanded.
    Rendered(Element<W>),
    /// A copy of what the prior tree holds in that place.
    Prior(Node<W>),
}

/// A copy of a tree without placeholders; `None` for a tree that holds one.
#[verifier::loop_isolation(false)]
pub fn clone_tree<W>(node: &Node<W>) -> (r: Option<Node<W>>)
    requires
        node.wf(),
    ensures
        match r {
            Some(c) => node.concrete() && c.wf() && c.concrete() && c.same_tree(node),
            None => !node.concrete(),
        },
    decreases node,
{
    match node {
        Node::Widget(_) => None,
        Node::Element(e) => {
            let mut fields: Vec<Field<Node<W>>> = Vec::with_capacity(e.fields.len());
            let mut i: usize = 0;
            while i < e.fields.len()
                invariant
                    i <= e.fields@.len(),
                    fields@.len() == i,
                    forall|k: int|
                        0 <= k < i ==> {
                            &&& (#[trigger] e.fields@[k]).child.concrete()
                            &&& fields@[k].child.wf()
                            &&& fields@[k].child.concrete()
                            &&& fields@[k].name == e.fields@[k].name
                            &&& fields@[k].child.same_children(&e.fields@[k].child)
                        },
                decreases e.fields@.len() - i,
            {
                let field = &e.fields[i];
                let child = match &field.child {
                    Child::Single(s) => match clone_tree(s.get()) {
                        Some(c) => Child::Single(Single::new(c)),
                        None => {
                            assert(!field.child.concrete());
                            return None;
                        },
                    },
                    Child::Optional(o) => match o.get() {
                        Some(n) => match clone_tree(n) {
                            Some(c) => Child::Optional(Optional::new(Some(c))),
                            None => {
                                assert(!field.child.concrete());
                                return None;
                            },
                        },
                        None => Child::Optional(Optional::new(None)),
                    },
                    Child::Multi(m) => {
                        let mut built: Multi<Node<W>> = Multi::with_capacity(m.nodes.len());
                        let mut j: usize = 0;
                        assert(m.keys@.take(0) =~= built.keys@);
                        while j < m.nodes.len()
                            invariant
                                j <= m.nodes@.len(),
                                built.wf(),
                                built.keys@ == m.keys@.take(j as int),
                                built.nodes@.len() == j,
                                forall|k: int|
                                    0 <= k < j ==> {
                                        &&& (#[trigger] m.nodes@[k]).concrete()
                                        &&& built.nodes@[k].wf()
                                        &&& built.nodes@[k].concrete()
                                        &&& built.nodes@[k].same_tree(&m.nodes@[k])
                                    },
                            decreases m.nodes@.len() - j,
                        {
                            match clone_tree(&m.nodes[j]) {
                                Some(c) => {
                                    let key = m.keys[j].clone();
                                    proof {
                                        let views = m.key_views();
                                        assert(built.key_views() =~= views.take(j as int));
                                        if built.has(key@) {
                                            let at = built.key_views().index_of(key@);
                                            assert(built.key_views()[at] == key@);
                                            assert(views[at] == views[j as int]);
                                        }
                                        assert(m.keys@.take(j + 1) =~= m.keys@.take(j as int).push(key));
                                    }
                                    built.push(key, c);
                                },
                                None => {
                                    assert(!field.child.concrete());
                                    return None;
                                },
                            }
                            j += 1;
                        }
                        assert(m.keys@.take(m.keys@.len() as int) =~= m.keys@);
                        assert(built.key_views() =~= m.key_views());
                        assert forall|k: int| 0 <= k < built.nodes@.len() implies (
                        #[trigger] built.nodes@[k]).wf() && built.nodes@[k].concrete()
                            && built.nodes@[k].same_tree(&m.nodes@[k]) by {
                            assert(m.nodes@[k].concrete());
                        }
                        let child = Child::Multi(built);
                        assert(child.wf());
                        assert(child.concrete());
                        assert(child.same_children(&field.child));
                        assert(field.child.concrete());
                        child
                    },
                };
                assert(field.child.concrete());
                assert(child.wf());
                assert(child.concrete());
                assert(child.same_children(&field.child));
                fields.push(Field { name: field.name, child });
                i += 1;
            }
            let copy = Node::Element(Element { tag: e.tag, params: e.params.clone(), fields });
            proof {
                assert forall|k: int| 0 <= k < e.fields@.len() implies (#[trigger] e.fields@[k]).child.concrete() by {}
                assert forall|k: int| 0 <= k < fields@.len() implies (#[trigger] fields@[k]).child.wf()
                    && fields@[k].child.concrete() && fields@[k].name@ == e.fields@[k].name@
                    && fields@[k].child.same_children(&e.fields@[k].child) by {
                    assert(e.fields@[k].child.concrete());
                }
            }
            Some(copy)
        },
    }
}

/// Decides what stands in the place of a placeholder, given what its
/// renderer returned. A rendered element stands there itself. Where the
/// renderer declined, a copy of what the prior tree holds in that place
/// stands there, and that must be a tree without placeholders.
pub fn resolve<W>(rendered: Option<Node<W>>, last: Option<&Node<W>>) -> (r: Result<
    Resolved<W>,
    ExpandError,
>)
    requires
        (last matches Some(l) ==> l.wf()),
    ensures
        match rendered {
            Some(Node::Element(e)) => r == Ok::<Resolved<W>, ExpandError>(Resolved::Rendered(e)),
            Some(Node::Widget(_)) => r == Err::<Resolved<W>, ExpandError>(
                ExpandError::RenderedPlaceholder,
            ),
            None => match last {
                None => r == Err::<Resolved<W>, ExpandError>(ExpandError::MissingPrior),
                Some(l) => if l.concrete() {
                    r matches Ok(Resolved::Prior(c)) && c.same_tree(l) && c.wf() && c.concrete()
                } else {
                    r == Err::<Resolved<W>, ExpandError>(ExpandError::UnexpandedPrior)
                },
            },
        },
{
    match rendered {
        Some(Node::Element(e)) => Ok(Resolved::Rendered(e)),
        Some(Node::Widget(_)) => Err(ExpandError::RenderedPlaceholder),
        None => match last {
            None => Err(ExpandError::MissingPrior),
            Some(l) => match clone_tree(l) {
                Some(c) => Ok(Resolved::Prior(c)),
                None => Err(ExpandError::UnexpandedPrior),
            },
        },
    }
}

/// Whether `r` is a fit outcome for a placeholder whose renderer returned
/// `rendered`, where the prior tree holds `last` in its place. A renderer
/// that declined: `r` is a tree like `last`, or the error that says why
/// `last` cannot stand in. A renderer that returned a placeholder: an
/// error. A renderer that returned an element: whatever the expansion of
/// that element gives, which is a tree like it where it is well formed
/// and holds no placeholder.
pub open spec fn outcome_fits<W>(rendered: Option<Node<W>>, last: Option<&Node<W>>, r: Result<
    Node<W>,
    ExpandError,
>) -> bool {
    match rendered {
        Some(Node::Element(e)) => Node::Element(e).wf() && Node::Element(e).concrete() ==> (r matches Ok(
            t,
        ) && t.same_tree(&Node::Element(e))),
        Some(Node::Widget(_)) => r == Err::<Node<W>, ExpandError>(ExpandError::RenderedPlaceholder),
        None => match last {
            None => r == Err::<Node<W>, ExpandError>(ExpandError::MissingPrior),
            Some(l) => if l.concrete() {
                r matches Ok(t) && t.same_tree(l)
            } else {
                r == Err::<Node<W>, ExpandError>(ExpandError::UnexpandedPrior)
            },
        },
    }
}

/// The tree behind a reference, if there is one.
pub open spec fn held<W>(last: Option<&Node<W>>) -> Option<Node<W>> {
    match last {
        Some(l) => Some(*l),
        None => None,
    }
}

/// The element of the prior tree whose children stand in the places of
/// the children of `e`: the element at the place of `e`, where it has the
/// shape of `e`.
pub open spec fn prior_of<W>(e: Element<W>, last: Option<Node<W>>) -> Option<Element<W>> {
    match last {
        Some(Node::Element(l)) => if e.same_shape(&l) {
            Some(l)
        } else {
            None
        },
        _ => None,
    }
}

/// What the prior element holds in the place of a child: the child of
/// its field `i`, under `key` where the field is a keyed list.
pub open spec fn prior_child<W>(prior: Option<Element<W>>, i: int, key: Option<Key>) -> Option<
    Node<W>,
> {
    match prior {
        Some(l) => match (l.fields@[i].child, key) {
            (Child::Single(p), None) => Some(*p.node),
            (Child::Optional(p), None) => match p.node {
                Some(n) => Some(*n),
                None => None,
            },
            (Child::Multi(p), Some(k)) => if p.has(k@) {
                Some(p.nodes@[p.position_of(k@)])
            } else {
                None
            },
            _ => None,
        },
        None => None,
    }
}

/// Whether `t` is an expansion of `curr` against `last` within `limit`
/// nested renderings. An element expands to an element with its tag,
/// attributes and fields, whose children are expansions of its children,
/// each against what the prior element holds in its place. A placeholder
/// expands to what some outcome of its renderer settles: an expansion of
/// the rendered element, or a tree like `last` where it declined.
pub open spec fn expands_to<W: WidgetDataTrait<Node<W>>>(
    curr: Node<W>,
    last: Option<Node<W>>,
    limit: nat,
    t: Node<W>,
) -> bool
    decreases 2 * limit + 1, curr, 1int,
{
    match curr {
        Node::Widget(data) => exists|rendered: Option<Node<W>>|
            #[trigger] call_ensures(W::render, (data,), rendered) && rendered_expands_to(
                rendered,
                last,
                limit,
                t,
            ),
        Node::Element(e) => element_expands_to(e, last, limit, t),
    }
}

/// Whether `t` settles the outcome `rendered` of a renderer, with `limit`
/// counting that rendering.
pub open spec fn rendered_expands_to<W: WidgetDataTrait<Node<W>>>(
    rendered: Option<Node<W>>,
    last: Option<Node<W>>,
    limit: nat,
    t: Node<W>,
) -> bool
    decreases 2 * limit, rendered, 0int,
{
    limit > 0 && match rendered {
        Some(Node::Element(e)) => element_expands_to(e, last, (limit - 1) as nat, t),
        Some(Node::Widget(_)) => false,
        None => last matches Some(l) && l.concrete() && t.same_tree(&l),
    }
}

/// Whether `t` is an expansion of the element `e`.
pub open spec fn element_expands_to<W: WidgetDataTrait<Node<W>>>(
    e: Element<W>,
    last: Option<Node<W>>,
    limit: nat,
    t: Node<W>,
) -> bool
    decreases 2 * limit + 1, e, 1int,
{
    &&& t matches Node::Element(to)
    &&& to.tag == e.tag
    &&& to.params == e.params
    &&& to.fields@.len() == e.fields@.len()
    &&& forall|i: int|
        0 <= i < e.fields@.len() ==> (#[trigger] to.fields@[i]).name == e.fields@[i].name
            && child_expands_to(e.fields@[i].child, prior_of(e, last), i, limit, to.fields@[i].child)
}

/// Whether the children `t` are expansions of the children `c` of field
/// `i`, child by child and under the same keys.
pub open spec fn child_expands_to<W: WidgetDataTrait<Node<W>>>(
    c: Child<Node<W>>,
    prior: Option<Element<W>>,
    i: int,
    limit: nat,
    t: Child<Node<W>>,
) -> bool
    decreases 2 * limit + 1, c, 0int,
{
    match (c, t) {
        (Child::Single(x), Child::Single(y)) => expands_to(
            *x.node,
            prior_child(prior, i, None),
            limit,
            *y.node,
        ),
        (Child::Optional(x), Child::Optional(y)) => match (x.node, y.node) {
            (Some(n), Some(m)) => expands_to(*n, prior_child(prior, i, None), limit, *m),
            (None, None) => true,
            _ => false,
        },
        (Child::Multi(x), Child::Multi(y)) => {
            &&& y.keys@ == x.keys@
            &&& y.nodes@.len() == x.nodes@.len()
            &&& x.keys@.len() == x.nodes@.len()
            &&& forall|j: int|
                0 <= j < x.nodes@.len() ==> expands_to(
                    x.nodes@[j],
                    prior_child(prior, i, Some(x.keys@[j])),
                    limit,
                    #[trigger] y.nodes@[j],
                )
        },
        _ => false,
    }
}

/// Whether the expansion of `curr` against `last` within `limit` nested
/// renderings may end in the error `err`. Too deep: a placeholder stands
/// where no rendering is left. Malformed: a keyed list of `curr` or of a
/// rendering has not one key for each child, or holds a key twice. The
/// other errors: some outcome of a renderer at a place gives them.
pub open spec fn refuses<W: WidgetDataTrait<Node<W>>>(
    curr: Node<W>,
    last: Option<Node<W>>,
    limit: nat,
    err: ExpandError,
) -> bool
    decreases 2 * limit + 1, curr, 1int,
{
    match curr {
        Node::Widget(data) => if limit == 0 {
            err == ExpandError::TooDeep
        } else {
            exists|rendered: Option<Node<W>>|
                #[trigger] call_ensures(W::render, (data,), rendered) && rendered_refuses(
                    rendered,
                    last,
                    limit,
                    err,
                )
        },
        Node::Element(e) => element_refuses(e, last, limit, err),
    }
}

/// Whether the outcome `rendered` of a renderer may end in the error `err`.
pub open spec fn rendered_refuses<W: WidgetDataTrait<Node<W>>>(
    rendered: Option<Node<W>>,
    last: Option<Node<W>>,
    limit: nat,
    err: ExpandError,
) -> bool
    decreases 2 * limit, rendered, 0int,
{
    limit > 0 && match rendered {
        Some(Node::Element(e)) => element_refuses(e, last, (limit - 1) as nat, err),
        Some(Node::Widget(_)) => err == ExpandError::RenderedPlaceholder,
        None => match last {
            None => err == ExpandError::MissingPrior,
            Some(l) => !l.concrete() && err == ExpandError::UnexpandedPrior,
        },
    }
}

/// Whether the expansion of the children of `e` may end in the error `err`.
pub open spec fn element_refuses<W: WidgetDataTrait<Node<W>>>(
    e: Element<W>,
    last: Option<Node<W>>,
    limit: nat,
    err: ExpandError,
) -> bool
    decreases 2 * limit + 1, e, 1int,
{
    exists|i: int|
        0 <= i < e.fields@.len() && child_refuses(
            (#[trigger] e.fields@[i]).child,
            prior_of(e, last),
            i,
            limit,
            err,
        )
}

/// Whether the expansion of the children `c` of field `i` may end in the
/// error `err`.
pub open spec fn child_refuses<W: WidgetDataTrait<Node<W>>>(
    c: Child<Node<W>>,
    prior: Option<Element<W>>,
    i: int,
    limit: nat,
    err: ExpandError,
) -> bool
    decreases 2 * limit + 1, c, 0int,
{
    match c {
        Child::Single(x) => refuses(*x.node, prior_child(prior, i, None), limit, err),
        Child::Optional(x) => match x.node {
            Some(n) => refuses(*n, prior_child(prior, i, None), limit, err),
            None => false,
        },
        Child::Multi(x) => {
            ||| err == ExpandError::Malformed && x.keys@.len() != x.nodes@.len()
            ||| err == ExpandError::Malformed && !key_views(x.keys@).no_duplicates()
            ||| exists|j: int|
                0 <= j < x.nodes@.len() && j < x.keys@.len() && refuses(
                    #[trigger] x.nodes@[j],
                    prior_child(prior, i, Some(x.keys@[j])),
                    limit,
                    err,
                )
        },
    }
}

/// An outcome of the renderer that may end in `err` makes `err` an error
/// that the expansion of the placeholder may end in.
proof fn lemma_placeholder_refuses<W: WidgetDataTrait<Node<W>>>(
    data: W,
    rendered: Option<Node<W>>,
    last: Option<Node<W>>,
    limit: nat,
    err: ExpandError,
)
    requires
        limit > 0,
        call_ensures(W::render, (data,), rendered),
        rendered_refuses(rendered, last, limit, err),
    ensures
        refuses(Node::Widget(data), last, limit, err),
{
    assert(exists|r: Option<Node<W>>|
        #[trigger] call_ensures(W::render, (data,), r) && rendered_refuses(r, last, limit, err));
    let placeholder = Node::Widget(data);
    assert(placeholder is Widget);
    assert(placeholder->Widget_0 == data);
    assert(refuses(placeholder, last, limit, err));
}

/// A field whose children may end in `err` makes `err` an error that the
/// expansion of the element may end in.
proof fn lemma_field_refuses<W: WidgetDataTrait<Node<W>>>(
    e: Element<W>,
    last: Option<Node<W>>,
    limit: nat,
    err: ExpandError,
    i: int,
)
    requires
        0 <= i < e.fields@.len(),
        child_refuses(e.fields@[i].child, prior_of(e, last), i, limit, err),
    ensures
        element_refuses(e, last, limit, err),
{
    let f = e.fields@[i];
    assert(exists|k: int|
        0 <= k < e.fields@.len() && child_refuses(
            (#[trigger] e.fields@[k]).child,
            prior_of(e, last),
            k,
            limit,
            err,
        ));
}

/// A child of a keyed list whose expansion may end in `err` makes `err`
/// an error that the expansion of the list may end in.
proof fn lemma_keyed_refuses<W: WidgetDataTrait<Node<W>>>(
    c: Child<Node<W>>,
    prior: Option<Element<W>>,
    i: int,
    limit: nat,
    err: ExpandError,
    j: int,
)
    requires
        c matches Child::Multi(x) && 0 <= j < x.nodes@.len() && j < x.keys@.len() && refuses(
            x.nodes@[j],
            prior_child(prior, i, Some(x.keys@[j])),
            limit,
            err,
        ),
    ensures
        child_refuses(c, prior, i, limit, err),
{
    let x = c->Multi_0;
    let n = x.nodes@[j];
    assert(exists|k: int|
        0 <= k < x.nodes@.len() && k < x.keys@.len() && refuses(
            #[trigger] x.nodes@[k],
            prior_child(prior, i, Some(x.keys@[k])),
            limit,
            err,
        ));
}

/// An outcome of the renderer that `t` settles makes `t` an expansion of
/// the placeholder.
proof fn lemma_placeholder_expands<W: WidgetDataTrait<Node<W>>>(
    data: W,
    rendered: Option<Node<W>>,
    last: Option<Node<W>>,
    limit: nat,
    t: Node<W>,
)
    requires
        call_ensures(W::render, (data,), rendered),
        rendered_expands_to(rendered, last, limit, t),
    ensures
        expands_to(Node::Widget(data), last, limit, t),
{
    assert(exists|r: Option<Node<W>>|
        #[trigger] call_ensures(W::render, (data,), r) && rendered_expands_to(r, last, limit, t));
    let placeholder = Node::Widget(data);
    assert(placeholder is Widget);
    assert(placeholder->Widget_0 == data);
    assert(expands_to(placeholder, last, limit, t));
}

/// Expands a tree: every placeholder is rendered, and what it renders to
/// is expanded in turn, so that no placeholder is left. `last` is what the
/// prior, expanded tree holds in the place of `curr`, if anything: where a
/// renderer declines, a copy of it stands in for the placeholder. `limit`
/// bounds how deep renderings may nest. A tree without placeholders comes
/// back as it is.
pub fn expand<W: WidgetDataTrait<Node<W>>>(curr: Node<W>, last: Option<&Node<W>>, limit: usize) -> (r:
    Result<Node<W>, ExpandError>)
    requires
        (last matches Some(l) ==> l.wf()),
    ensures
        (r matches Ok(t) ==> t.wf() && t.concrete() && expands_to(curr, held(last), limit as nat, t)),
        curr.wf() && curr.concrete() ==> (r matches Ok(t) && t.same_tree(&curr)),
        curr is Widget && limit == 0 ==> r == Err::<Node<W>, ExpandError>(ExpandError::TooDeep),
        (r matches Err(err) ==> refuses(curr, held(last), limit as nat, err)),
        curr is Widget && limit > 0 ==> exists|rendered: Option<Node<W>>|
            call_ensures(W::render, (curr->Widget_0,), rendered) && outcome_fits(rendered, last, r),
    decreases limit, curr, 1int,
{
    match curr {
        Node::Widget(data) => {
            if limit == 0 {
                return Err(ExpandError::TooDeep);
            }
            let rendered = data.render();
            let ghost outcome = rendered;
            let r = match resolve(rendered, last) {
                Ok(Resolved::Rendered(e)) => {
                    match expand_element(e, last, limit - 1) {
                        Ok(t) => Ok(t),
                        Err(err) => Err(err),
                    }
                },
                Ok(Resolved::Prior(c)) => Ok(c),
                Err(err) => Err(err),
            };
            assert(call_ensures(W::render, (data,), outcome) && outcome_fits(outcome, last, r));
            proof {
                if r is Ok {
                    let t = r->Ok_0;
                    assert(rendered_expands_to(outcome, held(last), limit as nat, t));
                    lemma_placeholder_expands(data, outcome, held(last), limit as nat, t);
                } else {
                    let err = r->Err_0;
                    assert(rendered_refuses(outcome, held(last), limit as nat, err));
                    lemma_placeholder_refuses(data, outcome, held(last), limit as nat, err);
                }
            }
            r
        },
        Node::Element(e) => {
            let r = expand_element(e, last, limit);
            assert(r matches Ok(t) ==> expands_to(curr, held(last), limit as nat, t));
            r
        },
    }
}

/// Expands the children of an element.
#[verifier::loop_isolation(false)]
fn expand_element<W: WidgetDataTrait<Node<W>>>(e: Element<W>, last: Option<&Node<W>>, limit: usize) -> (r:
    Result<Node<W>, ExpandError>)
    requires
        (last matches Some(l) ==> l.wf()),
    ensures
        (r matches Ok(t) ==> t.wf() && t.concrete() && element_expands_to(e, held(last), limit as nat, t)),
        Node::Element(e).wf() && Node::Element(e).concrete() ==> (r matches Ok(t) && t.same_tree(
            &Node::Element(e),
        )),
        (r matches Err(err) ==> element_refuses(e, held(last), limit as nat, err)),
    decreases limit, e, 0int,
{
    let ghost good = Node::Element(e).wf() && Node::Element(e).concrete();
    let prior: Option<&Element<W>> = match last {
        Some(Node::Element(l)) => if e.has_shape_of(l) {
            Some(l)
        } else {
            None
        },
        _ => None,
    };
    let Element { tag, params, fields } = e;
    let mut out: Vec<Field<Node<W>>> = Vec::with_capacity(fields.len());
    let mut i: usize = 0;
    for field in it: fields
        invariant
            it.seq() == fields@,
            i == it.index(),
            out@.len() == i,
            forall|k: int| 0 <= k < i ==> (#[trigger] out@[k]).child.wf() && out@[k].child.concrete(),
            good ==> forall|k: int|
                0 <= k < i ==> (#[trigger] out@[k]).name == fields@[k].name
                    && out@[k].child.same_children(&fields@[k].child),
            forall|k: int|
                0 <= k < i ==> (#[trigger] out@[k]).name == fields@[k].name && child_expands_to(
                    fields@[k].child,
                    prior_of(e, held(last)),
                    k,
                    limit as nat,
                    out@[k].child,
                ),
    {
        assert(field == fields@[i as int]);
        assert(good ==> field.child.wf() && field.child.concrete());
        let Field { name, child } = field;
        let field_prior: Option<&Child<Node<W>>> = match prior {
            Some(l) => {
                assert(l.fields@[i as int].child.wf());
                Some(&l.fields[i].child)
            },
            None => None,
        };
        let expanded = match child {
            Child::Single(s) => {
                let below = match field_prior {
                    Some(Child::Single(p)) => Some(p.get()),
                    _ => None,
                };
                match expand(s.into_inner(), below, limit) {
                    Ok(t) => Child::Single(Single::new(t)),
                    Err(err) => {
                        proof {
                            lemma_field_refuses(e, held(last), limit as nat, err, i as int);
                        }
                        return Err(err);
                    },
                }
            },
            Child::Optional(o) => {
                let below = match field_prior {
                    Some(Child::Optional(p)) => p.get(),
                    _ => None,
                };
                match o.into_inner() {
                    Some(n) => match expand(n, below, limit) {
                        Ok(t) => Child::Optional(Optional::new(Some(t))),
                        Err(err) => {
                            proof {
                                lemma_field_refuses(e, held(last), limit as nat, err, i as int);
                            }
                            return Err(err);
                        },
                    },
                    None => Child::Optional(Optional::new(None)),
                }
            },
            Child::Multi(m) => {
                let Multi { keys, nodes, index } = m;
                if keys.len() != nodes.len() {
                    proof {
                        lemma_field_refuses(e, held(last), limit as nat, ExpandError::Malformed, i as int);
                    }
                    return Err(ExpandError::Malformed);
                }
                let mut built: Multi<Node<W>> = Multi::with_capacity(nodes.len());
                let mut j: usize = 0;
                assert(keys@.take(0) =~= built.keys@);
                for node in walk: nodes
                    invariant
                        walk.seq() == nodes@,
                        j == walk.index(),
                        keys@.len() == nodes@.len(),
                        built.wf(),
                        built.keys@ == keys@.take(j as int),
                        built.nodes@.len() == j,
                        forall|k: int|
                            0 <= k < j ==> (#[trigger] built.nodes@[k]).wf() && built.nodes@[k].concrete(),
                        good ==> forall|k: int|
                            0 <= k < j ==> (#[trigger] built.nodes@[k]).same_tree(&nodes@[k]),
                        forall|k: int|
                            0 <= k < j ==> expands_to(
                                nodes@[k],
                                prior_child(prior_of(e, held(last)), i as int, Some(keys@[k])),
                                limit as nat,
                                #[trigger] built.nodes@[k],
                            ),
                {
                    assert(node == nodes@[j as int]);
                    assert(good ==> node.wf() && node.concrete());
                    let key = keys[j].clone();
                    let below = match field_prior {
                        Some(Child::Multi(p)) => {
                            let found = p.get_by_key(&key);
                            assert((found matches Some(n) ==> n.wf())) by {
                                if p.has(key@) {
                                    let at = p.position_of(key@);
                                    assert(p.key_views()[at] == key@);
                                    assert(p.nodes@[at].wf());
                                }
                            }
                            found
                        },
                        _ => None,
                    };
                    let t = match expand(node, below, limit) {
                        Ok(t) => t,
                        Err(err) => {
                            proof {
                                lemma_keyed_refuses(
                                    fields@[i as int].child,
                                    prior_of(e, held(last)),
                                    i as int,
                                    limit as nat,
                                    err,
                                    j as int,
                                );
                                lemma_field_refuses(e, held(last), limit as nat, err, i as int);
                            }
                            return Err(err);
                        },
                    };
                    proof {
                        assert(built.key_views() =~= key_views(keys@).take(j as int));
                        if good && built.has(key@) {
                            let at = built.key_views().index_of(key@);
                            assert(built.key_views()[at] == key@);
                            assert(key_views(keys@)[at] == key_views(keys@)[j as int]);
                        }
                        assert(keys@.take(j + 1) =~= keys@.take(j as int).push(key));
                    }
                    match built.try_push(key, t) {
                        Ok(_) => {},
                        Err(_) => {
                            proof {
                                let at = built.key_views().index_of(key@);
                                assert(built.key_views()[at] == key@);
                                assert(key_views(keys@)[at] == key_views(keys@)[j as int]);
                                assert(!key_views(keys@).no_duplicates());
                                lemma_field_refuses(
                                    e,
                                    held(last),
                                    limit as nat,
                                    ExpandError::Malformed,
                                    i as int,
                                );
                            }
                            return Err(ExpandError::Malformed);
                        },
                    }
                    j += 1;
                }
                assert(keys@.take(keys@.len() as int) =~= keys@);
                assert(built.key_views() =~= key_views(keys@));
                Child::Multi(built)
            },
        };
        assert(expanded.wf() && expanded.concrete());
        assert(good ==> expanded.same_children(&fields@[i as int].child));
        assert(child_expands_to(
            fields@[i as int].child,
            prior_of(e, held(last)),
            i as int,
            limit as nat,
            expanded,
        ));
        out.push(Field { name, child: expanded });
        i += 1;
    }
    let t = Node::Element(Element { tag, params, fields: out });
    assert(good ==> t.same_tree(&Node::Element(e)));
    assert(element_expands_to(e, held(last), limit as nat, t));
    Ok(t)
}

} // verus!
