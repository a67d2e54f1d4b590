use vtree::child::Multi;
use vtree::child::Option as Optional;
use vtree::child::Single;
use vtree::key::Key;
use vtree::node::Child;
use vtree::node::Field;
use vtree::node::Node;
use vtree::tree::diff;
use vtree::tree::try_diff;
use vtree::tree::Event;
use vtree::visit::visit_enter;
use vtree::visit::visit_exit;
use vtree::widget::clone_tree;
use vtree::widget::expand;
use vtree::widget::resolve;
use vtree::widget::ExpandError;
use vtree::widget::Resolved;
use vtree::widget::Widget;
use vtree::widget::WidgetData;
use vtree::widget::WidgetDataTrait;

enum Plan {
    Decline,
    Give(Box<Tree>),
    Again(u32),
}

type Tree = Node<Plan>;

impl WidgetDataTrait<Tree> for Plan {
    fn render(self) -> Option<Tree> {
        match self {
            Plan::Decline => None,
            Plan::Give(t) => Some(*t),
            Plan::Again(0) => Some(leaf(3, "bottom")),
            Plan::Again(n) => Some(with_single(2, "level", Node::Widget(Plan::Again(n - 1)))),
        }
    }
}

fn leaf(tag: u32, text: &str) -> Tree {
    Node::element(tag, text.to_string(), vec![])
}

fn keyed(tag: u32, text: &str, children: Vec<(Key, Tree)>) -> Tree {
    let mut m = Multi::new();
    for (k, n) in children {
        m.push(k, n);
    }
    Node::element(tag, text.to_string(), vec![Field::new("children", Child::Multi(m))])
}

fn with_single(tag: u32, text: &str, child: Tree) -> Tree {
    Node::element(tag, text.to_string(), vec![Field::new("body", Child::Single(Single::new(child)))])
}

fn with_optional(tag: u32, text: &str, child: Option<Tree>) -> Tree {
    Node::element(tag, text.to_string(), vec![Field::new("extra", Child::Optional(Optional::new(child)))])
}

fn give(t: Tree) -> Tree {
    Node::Widget(Plan::Give(Box::new(t)))
}

fn text(n: &Tree) -> String {
    match n {
        Node::Widget(_) => "<widget>".to_string(),
        Node::Element(e) => {
            let mut out = format!("{}:{}", e.tag, e.params);
            for f in e.fields.iter() {
                out.push_str(&format!(" {}(", f.name));
                match &f.child {
                    Child::Single(s) => out.push_str(&text(s.get())),
                    Child::Optional(o) => match o.get() {
                        Some(n) => out.push_str(&text(n)),
                        None => out.push_str("-"),
                    },
                    Child::Multi(m) => {
                        let parts: Vec<String> = m
                            .iter()
                            .iter()
                            .map(|e| format!("{}={}", e.0.to_string(), text(e.1)))
                            .collect();
                        out.push_str(&parts.join(", "));
                    },
                }
                out.push_str(")");
            }
            out
        },
    }
}

fn changes(curr: &Tree, last: &Tree) -> usize {
    diff(curr, last)
        .iter()
        .filter(|e| {
            !matches!(
                e,
                Event::EnterCurr { .. }
                    | Event::EnterLast { .. }
                    | Event::ExitCurr { .. }
                    | Event::ExitLast { .. }
            )
        })
        .count()
}

fn expanded(r: Result<Tree, ExpandError>) -> String {
    match r {
        Ok(t) => text(&t),
        Err(e) => format!("{:?}", e),
    }
}

#[test]
fn a_tree_without_placeholders_expands_to_itself() {
    let t = keyed(1, "r", vec![(Key::Str("a"), with_single(2, "a", leaf(3, "x"))), (Key::U64(1), with_optional(4, "o", None))]);
    let before = text(&t);
    assert!(t.is_concrete());
    assert_eq!(expanded(expand(t, None, 0)), before);
    assert_eq!(before, "1:r children(sa=2:a body(3:x), u1=4:o extra(-))");
}

#[test]
fn placeholders_are_rendered_at_every_level() {
    let t = keyed(
        1,
        "r",
        vec![
            (Key::Str("a"), give(with_single(2, "a", give(leaf(3, "deep"))))),
            (Key::Str("b"), with_optional(4, "b", Some(give(leaf(3, "opt"))))),
        ],
    );
    assert!(!t.is_concrete());
    let r = expand(t, None, 8);
    match &r {
        Ok(t) => assert!(t.is_concrete()),
        Err(_) => panic!("expansion failed"),
    }
    assert_eq!(expanded(r), "1:r children(sa=2:a body(3:deep), sb=4:b extra(3:opt))");
    assert_eq!(expanded(expand(give(leaf(3, "x")), None, 1)), "3:x");
}

#[test]
fn a_declined_placeholder_takes_the_prior_subtree() {
    let last = keyed(
        1,
        "r",
        vec![(Key::Str("a"), with_single(2, "kept", leaf(3, "inner"))), (Key::Str("b"), leaf(3, "b"))],
    );
    let curr = keyed(
        1,
        "r",
        vec![(Key::Str("a"), Node::Widget(Plan::Decline)), (Key::Str("b"), leaf(3, "b2"))],
    );
    let r = expand(curr, Some(&last), 4);
    let now = match r {
        Ok(t) => t,
        Err(_) => panic!("expansion failed"),
    };
    assert_eq!(text(&now), "1:r children(sa=2:kept body(3:inner), sb=3:b2)");
    assert_eq!(changes(&now, &last), 1);
    let whole = expand(Node::Widget(Plan::Decline), Some(&last), 1);
    let whole = match whole {
        Ok(t) => t,
        Err(_) => panic!("expansion failed"),
    };
    assert_eq!(text(&whole), text(&last));
    assert_eq!(changes(&whole, &last), 0);
}

#[test]
fn prior_children_are_found_by_field_and_key() {
    let last = Node::element(
        1,
        "r".to_string(),
        vec![
            Field::new("one", Child::Single(Single::new(leaf(3, "single")))),
            Field::new("two", Child::Optional(Optional::new(Some(leaf(3, "optional"))))),
            Field::new("three", {
                let mut m = Multi::new();
                m.push(Key::U64(1), leaf(3, "first"));
                m.push(Key::U64(2), leaf(3, "second"));
                Child::Multi(m)
            }),
        ],
    );
    let curr = Node::element(
        1,
        "r".to_string(),
        vec![
            Field::new("one", Child::Single(Single::new(Node::Widget(Plan::Decline)))),
            Field::new("two", Child::Optional(Optional::new(Some(Node::Widget(Plan::Decline))))),
            Field::new("three", {
                let mut m = Multi::new();
                m.push(Key::U64(2), Node::Widget(Plan::Decline));
                m.push(Key::U64(1), Node::Widget(Plan::Decline));
                Child::Multi(m)
            }),
        ],
    );
    assert_eq!(
        expanded(expand(curr, Some(&last), 1)),
        "1:r one(3:single) two(3:optional) three(u2=3:second, u1=3:first)"
    );
}

#[test]
fn expansion_fails_where_nothing_can_stand_in() {
    assert_eq!(expand(Node::Widget(Plan::Decline), None, 4).err(), Some(ExpandError::MissingPrior));
    let unexpanded = with_single(2, "p", Node::Widget(Plan::Decline));
    assert_eq!(
        expand(Node::Widget(Plan::Decline), Some(&unexpanded), 4).err(),
        Some(ExpandError::UnexpandedPrior)
    );
    let placeholder: Tree = Node::Widget(Plan::Decline);
    assert_eq!(
        expand(Node::Widget(Plan::Decline), Some(&placeholder), 4).err(),
        Some(ExpandError::UnexpandedPrior)
    );
    assert_eq!(
        expand(give(Node::Widget(Plan::Decline)), None, 4).err(),
        Some(ExpandError::RenderedPlaceholder)
    );
    let other_shape = leaf(9, "other");
    let curr = with_single(2, "p", Node::Widget(Plan::Decline));
    assert_eq!(expand(curr, Some(&other_shape), 4).err(), Some(ExpandError::MissingPrior));
    let missing_key = keyed(1, "r", vec![(Key::U64(1), leaf(3, "x"))]);
    let curr = keyed(1, "r", vec![(Key::U64(2), Node::Widget(Plan::Decline))]);
    assert_eq!(expand(curr, Some(&missing_key), 4).err(), Some(ExpandError::MissingPrior));
}

#[test]
fn expansion_stops_at_the_limit() {
    assert_eq!(expanded(expand(Node::Widget(Plan::Again(0)), None, 1)), "3:bottom");
    assert_eq!(expand(Node::Widget(Plan::Again(0)), None, 0).err(), Some(ExpandError::TooDeep));
    assert_eq!(
        expanded(expand(Node::Widget(Plan::Again(2)), None, 3)),
        "2:level body(2:level body(3:bottom))"
    );
    assert_eq!(expand(Node::Widget(Plan::Again(2)), None, 2).err(), Some(ExpandError::TooDeep));
    let side_by_side = keyed(
        1,
        "r",
        vec![(Key::U64(1), Node::Widget(Plan::Again(0))), (Key::U64(2), Node::Widget(Plan::Again(0)))],
    );
    assert_eq!(expanded(expand(side_by_side, None, 1)), "1:r children(u1=3:bottom, u2=3:bottom)");
}

#[test]
fn expansion_refuses_a_malformed_list() {
    let mut good: Multi<Tree> = Multi::new();
    good.push(Key::U64(1), leaf(3, "a"));
    good.push(Key::U64(2), leaf(3, "b"));
    let Multi { keys, nodes, index } = good;
    let mut short = keys.clone();
    short.pop();
    let lacking = Node::element(
        1,
        "r".to_string(),
        vec![Field::new("children", Child::Multi(Multi { keys: short, nodes, index }))],
    );
    assert_eq!(expand(lacking, None, 1).err(), Some(ExpandError::Malformed));
    let mut other: Multi<Tree> = Multi::new();
    other.push(Key::U64(1), leaf(3, "a"));
    other.push(Key::U64(2), leaf(3, "b"));
    let Multi { keys: _, nodes, index } = other;
    let twice = Node::element(
        1,
        "r".to_string(),
        vec![Field::new(
            "children",
            Child::Multi(Multi { keys: vec![Key::U64(1), Key::U64(1)], nodes, index }),
        )],
    );
    assert_eq!(expand(give(twice), None, 1).err(), Some(ExpandError::Malformed));
}

#[test]
fn resolve_decides_for_each_outcome() {
    let last = with_single(2, "prior", leaf(3, "x"));
    match resolve(Some(leaf(3, "fresh")), Some(&last)) {
        Ok(Resolved::Rendered(e)) => assert_eq!(e.params, "fresh"),
        _ => panic!("a rendered element was not taken"),
    }
    match resolve(None, Some(&last)) {
        Ok(Resolved::Prior(c)) => assert_eq!(text(&c), "2:prior body(3:x)"),
        _ => panic!("the prior subtree was not taken"),
    }
    assert!(matches!(resolve::<Plan>(None, None), Err(ExpandError::MissingPrior)));
    let unexpanded: Tree = Node::Widget(Plan::Decline);
    assert!(matches!(resolve(None, Some(&unexpanded)), Err(ExpandError::UnexpandedPrior)));
    assert!(matches!(
        resolve(Some(Node::Widget(Plan::Decline)), Some(&last)),
        Err(ExpandError::RenderedPlaceholder)
    ));
}

#[test]
fn a_copy_of_a_tree_is_alike() {
    let t = keyed(
        1,
        "r",
        vec![
            (Key::Str("a"), with_single(2, "a", leaf(3, "x"))),
            (Key::U64(1), with_optional(4, "o", Some(leaf(3, "y")))),
            (Key::U64(2), with_optional(4, "o", None)),
        ],
    );
    let copy = match clone_tree(&t) {
        Some(c) => c,
        None => panic!("a tree without placeholders was not copied"),
    };
    assert_eq!(text(&copy), text(&t));
    assert_eq!(changes(&copy, &t), 0);
    assert!(clone_tree(&with_single(2, "a", Node::Widget(Plan::Decline))).is_none());
    assert!(clone_tree::<Plan>(&Node::Widget(Plan::Decline)).is_none());
}

#[derive(Clone, Debug)]
struct Doubler;

impl Widget for Doubler {
    type Input = u32;
    type Output = u32;

    fn new() -> Self {
        Doubler
    }

    fn render(&self, input: u32) -> Option<u32> {
        if input == 0 {
            None
        } else {
            Some(input * 2)
        }
    }
}

#[test]
fn widget_data_renders_through_its_renderer() {
    assert_eq!(WidgetData::<Doubler>(21).render(), Some(42));
    assert_eq!(WidgetData::<Doubler>(0).render(), None);
}

#[test]
fn walks_meet_every_node_with_its_path() {
    let t = keyed(
        1,
        "r",
        vec![
            (Key::Str("a"), with_single(2, "a", leaf(3, "x"))),
            (Key::U64(1), with_optional(4, "o", Some(leaf(3, "y")))),
            (Key::U64(2), with_optional(4, "e", None)),
            (Key::U64(3), Node::Widget(Plan::Decline)),
        ],
    );
    let show = |n: &Tree| match n {
        Node::Element(e) => e.params.clone(),
        Node::Widget(_) => "<widget>".to_string(),
    };
    let down: Vec<String> = visit_enter(&t)
        .iter()
        .map(|v| format!("[{}] #{} {}", v.path.to_string(), v.index, show(v.node)))
        .collect();
    assert_eq!(
        down,
        vec![
            "[] #0 r",
            "[children.sa] #0 a",
            "[children.sa.body.] #0 x",
            "[children.u1] #1 o",
            "[children.u1.extra.] #0 y",
            "[children.u2] #2 e",
            "[children.u3] #3 <widget>",
        ]
    );
    let up: Vec<String> = visit_exit(&t)
        .iter()
        .map(|v| format!("[{}] #{} {}", v.path.to_string(), v.index, show(v.node)))
        .collect();
    assert_eq!(
        up,
        vec![
            "[children.sa.body.] #0 x",
            "[children.sa] #0 a",
            "[children.u1.extra.] #0 y",
            "[children.u1] #1 o",
            "[children.u2] #2 e",
            "[children.u3] #3 <widget>",
            "[] #0 r",
        ]
    );
}

#[test]
fn trees_with_placeholders_are_not_compared() {
    let plain = with_single(2, "p", leaf(3, "x"));
    let holed = with_single(2, "p", Node::Widget(Plan::Decline));
    assert!(try_diff(&plain, &holed).is_none());
    assert!(try_diff(&holed, &plain).is_none());
    assert!(try_diff(&holed, &holed).is_none());
    match try_diff(&plain, &plain) {
        Some(events) => assert_eq!(events.len(), 8),
        None => panic!("two trees without placeholders were not compared"),
    }
}

#[test]
fn malformed_lists_are_told_apart() {
    let mut good: Multi<Tree> = Multi::new();
    good.push(Key::U64(1), leaf(3, "a"));
    good.push(Key::Str("x"), leaf(3, "b"));
    assert!(good.is_well_formed());
    let empty: Multi<Tree> = Multi::new();
    assert!(empty.is_well_formed());
    let Multi { keys, nodes, index } = good;
    let lacking = Multi { keys: vec![Key::U64(1)], nodes, index };
    assert!(!lacking.is_well_formed());
    let Multi { keys: _, nodes, index } = lacking;
    let other_key = Multi { keys: vec![Key::U64(1), Key::Str("y")], nodes, index };
    assert!(!other_key.is_well_formed());
    let Multi { keys: _, nodes, index } = other_key;
    let other_order = Multi { keys: vec![Key::Str("x"), Key::U64(1)], nodes, index };
    assert!(!other_order.is_well_formed());
    let Multi { keys: _, nodes, index } = other_order;
    let restored = Multi { keys, nodes, index };
    assert!(restored.is_well_formed());
    let tree = Node::element(1, "r".to_string(), vec![Field::new("children", Child::Multi(restored))]);
    assert!(tree.is_well_formed());
    let mut second: Multi<Tree> = Multi::new();
    second.push(Key::U64(1), leaf(3, "a"));
    let Multi { keys: _, nodes, index } = second;
    let broken = Node::element(
        1,
        "r".to_string(),
        vec![Field::new("children", Child::Multi(Multi { keys: vec![Key::U64(2)], nodes, index }))],
    );
    assert!(!broken.is_well_formed());
    assert!(try_diff(&broken, &tree).is_none());
    assert!(try_diff(&tree, &broken).is_none());
    let nested = with_single(2, "p", broken);
    assert!(!nested.is_well_formed());
    assert!(with_single(2, "p", leaf(3, "x")).is_well_formed());
    let placeholder: Tree = Node::Widget(Plan::Decline);
    assert!(placeholder.is_well_formed());
}
