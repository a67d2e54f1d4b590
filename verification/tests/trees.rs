use vtree::child::Multi;
use vtree::child::Option as Optional;
use vtree::child::Single;
use vtree::diff::Context;
use vtree::diff::Differ;
use vtree::diff::Path;
use vtree::key::Key;
use vtree::node::Child;
use vtree::node::ChildType;
use vtree::node::Field;
use vtree::node::Node;
use vtree::node::ParamsEventsWrapper;
use vtree::tree::diff;
use vtree::tree::notify;
use vtree::tree::tell;
use vtree::tree::Event;

type Tree = Node<()>;

fn params(n: &Tree) -> String {
    match n {
        Node::Element(e) => e.params.clone(),
        Node::Widget(_) => "?".to_string(),
    }
}

fn leaf(tag: u32, text: &str) -> Tree {
    Node::element(tag, text.to_string(), vec![])
}

fn keyed(tag: u32, text: &str, children: Vec<(Key, Tree)>) -> Tree {
    let mut m = Multi::new();
    for (k, n) in children {
        m.push(k, n);
    }
    Node::element(tag, text.to_string(), vec![Field::new("children", Child::Multi(m))])
}

fn with_single(tag: u32, text: &str, child: Tree) -> Tree {
    Node::element(tag, text.to_string(), vec![Field::new("body", Child::Single(Single::new(child)))])
}

fn with_optional(tag: u32, text: &str, child: Option<Tree>) -> Tree {
    Node::element(tag, text.to_string(), vec![Field::new("extra", Child::Optional(Optional::new(child)))])
}

fn show(e: &Event<()>) -> String {
    match e {
        Event::EnterCurr { path, node } => format!("enter curr [{}] {}", path.to_string(), params(node)),
        Event::EnterLast { path, node } => format!("enter last [{}] {}", path.to_string(), params(node)),
        Event::ExitCurr { path, node } => format!("exit curr [{}] {}", path.to_string(), params(node)),
        Event::ExitLast { path, node } => format!("exit last [{}] {}", path.to_string(), params(node)),
        Event::Added { path, index, node } => {
            format!("added [{}] #{} {}", path.to_string(), index, params(node))
        },
        Event::Removed { path, index, node } => {
            format!("removed [{}] #{} {}", path.to_string(), index, params(node))
        },
        Event::Replaced { path, index, curr, last } => {
            format!("replaced [{}] #{} {} for {}", path.to_string(), index, params(curr), params(last))
        },
        Event::ParamsChanged { path, curr, last } => {
            format!("changed [{}] {} from {}", path.to_string(), params(curr), params(last))
        },
        Event::Reordered { path, pairs } => format!("reordered [{}] {:?}", path.to_string(), pairs),
    }
}

fn is_hook(e: &Event<()>) -> bool {
    matches!(
        e,
        Event::EnterCurr { .. } | Event::EnterLast { .. } | Event::ExitCurr { .. } | Event::ExitLast { .. }
    )
}

fn changes(curr: &Tree, last: &Tree) -> Vec<String> {
    diff(curr, last).iter().filter(|e| !is_hook(e)).map(show).collect()
}

fn all(curr: &Tree, last: &Tree) -> Vec<String> {
    diff(curr, last).iter().map(show).collect()
}

fn sample() -> Tree {
    keyed(
        1,
        "root",
        vec![
            (Key::Str("a"), with_single(2, "a", leaf(3, "inner"))),
            (Key::Str("b"), with_optional(4, "b", Some(keyed(1, "list", vec![(Key::U64(1), leaf(3, "one"))])))),
            (Key::U64(9), with_optional(4, "c", None)),
        ],
    )
}

#[test]
fn a_tree_differs_not_from_itself() {
    let t = sample();
    assert!(t.is_concrete());
    assert!(changes(&t, &t).is_empty());
    let hooks = diff(&t, &t);
    assert_eq!(hooks.len(), 4 * 7);
    let copy = sample();
    assert!(changes(&t, &copy).is_empty());
    let one = leaf(1, "x");
    assert_eq!(
        all(&one, &one),
        vec!["enter curr [] x", "enter last [] x", "exit curr [] x", "exit last [] x"]
    );
}

#[test]
fn changed_attributes_are_reported_once() {
    let last = with_single(2, "old", leaf(3, "same"));
    let curr = with_single(2, "new", leaf(3, "same"));
    assert_eq!(changes(&curr, &last), vec!["changed [] new from old"]);
    let deep_last = with_single(2, "p", leaf(3, "old"));
    let deep_curr = with_single(2, "p", leaf(3, "new"));
    assert_eq!(changes(&deep_curr, &deep_last), vec!["changed [body.] new from old"]);
    assert_eq!(
        all(&deep_curr, &deep_last),
        vec![
            "enter curr [] p",
            "enter last [] p",
            "enter curr [body.] new",
            "enter last [body.] old",
            "changed [body.] new from old",
            "exit curr [body.] new",
            "exit last [body.] old",
            "exit curr [] p",
            "exit last [] p",
        ]
    );
}

#[test]
fn an_optional_child_is_added_or_removed() {
    let without = with_optional(4, "p", None);
    let with = with_optional(4, "p", Some(with_single(2, "child", leaf(3, "below"))));
    assert_eq!(changes(&with, &without), vec!["added [extra.] #0 child"]);
    assert_eq!(changes(&without, &with), vec!["removed [extra.] #0 child"]);
    assert!(changes(&without, &without).is_empty());
    assert!(changes(&with, &with).is_empty());
    assert_eq!(
        all(&with, &without),
        vec![
            "enter curr [] p",
            "enter last [] p",
            "enter curr [extra.] child",
            "added [extra.] #0 child",
            "exit curr [extra.] child",
            "exit curr [] p",
            "exit last [] p",
        ]
    );
    assert_eq!(
        all(&without, &with),
        vec![
            "enter curr [] p",
            "enter last [] p",
            "enter last [extra.] child",
            "removed [extra.] #0 child",
            "exit last [extra.] child",
            "exit curr [] p",
            "exit last [] p",
        ]
    );
}

#[test]
fn a_node_of_another_shape_replaces_after_all_below_is_removed() {
    let last = keyed(
        1,
        "old",
        vec![
            (Key::Str("a"), with_single(2, "a", leaf(3, "inner"))),
            (Key::Str("b"), leaf(3, "b")),
        ],
    );
    let curr = leaf(5, "new");
    assert_eq!(
        changes(&curr, &last),
        vec![
            "removed [children.sa] #0 a",
            "removed [children.sa.body.] #0 inner",
            "removed [children.sb] #1 b",
            "replaced [] #0 new for old",
        ]
    );
    let other_layout = with_single(1, "old", leaf(3, "x"));
    assert_eq!(
        changes(&other_layout, &last).last().map(|s| s.as_str()),
        Some("replaced [] #0 old for old")
    );
    let in_list_last = keyed(1, "r", vec![(Key::U64(1), leaf(3, "x")), (Key::U64(2), leaf(3, "y"))]);
    let in_list_curr = keyed(1, "r", vec![(Key::U64(1), leaf(3, "x")), (Key::U64(2), leaf(7, "y"))]);
    assert_eq!(changes(&in_list_curr, &in_list_last), vec!["replaced [children.u2] #1 y for y"]);
}

#[test]
fn disjoint_lists_remove_all_and_add_all() {
    let last = keyed(1, "r", vec![(Key::Str("x"), leaf(3, "1")), (Key::Str("y"), with_single(2, "2", leaf(3, "deep")))]);
    let curr = keyed(
        1,
        "r",
        vec![(Key::U64(1), leaf(3, "3")), (Key::U64(2), leaf(3, "4")), (Key::U64(3), leaf(3, "5"))],
    );
    assert_eq!(
        changes(&curr, &last),
        vec![
            "removed [children.sx] #0 1",
            "removed [children.sy] #1 2",
            "added [children.u1] #0 3",
            "added [children.u2] #1 4",
            "added [children.u3] #2 5",
        ]
    );
}

#[test]
fn removed_kept_and_added_children_of_a_list() {
    let last = keyed(1, "r", vec![(Key::Str("k1"), leaf(3, "x")), (Key::Str("k2"), leaf(3, "y"))]);
    let curr = keyed(1, "r", vec![(Key::Str("k2"), leaf(3, "y")), (Key::Str("k3"), leaf(3, "z"))]);
    assert_eq!(
        changes(&curr, &last),
        vec!["removed [children.sk1] #0 x", "added [children.sk3] #1 z"]
    );
    assert_eq!(
        all(&curr, &last),
        vec![
            "enter curr [] r",
            "enter last [] r",
            "enter last [children.sk1] x",
            "removed [children.sk1] #0 x",
            "exit last [children.sk1] x",
            "enter curr [children.sk2] y",
            "enter last [children.sk2] y",
            "exit curr [children.sk2] y",
            "exit last [children.sk2] y",
            "enter curr [children.sk3] z",
            "added [children.sk3] #1 z",
            "exit curr [children.sk3] z",
            "exit curr [] r",
            "exit last [] r",
        ]
    );
}

#[test]
fn moved_children_are_reported_after_the_children() {
    let last = keyed(
        1,
        "r",
        vec![(Key::Str("a"), leaf(3, "a")), (Key::Str("b"), leaf(3, "b")), (Key::Str("c"), leaf(3, "c"))],
    );
    let curr = keyed(
        1,
        "r",
        vec![(Key::Str("c"), leaf(3, "c!")), (Key::Str("b"), leaf(3, "b")), (Key::Str("a"), leaf(3, "a"))],
    );
    assert_eq!(
        changes(&curr, &last),
        vec!["changed [children.sc] c! from c", "reordered [children] [(0, 2)]"]
    );
}

#[test]
fn paths_lead_from_the_root_to_the_node() {
    let last = keyed(
        1,
        "top",
        vec![(
            Key::Str("A"),
            keyed(
                1,
                "mid",
                vec![
                    (Key::U64(1), keyed(1, "low", vec![(Key::I64(-2), leaf(3, "old")), (Key::I64(-3), leaf(3, "gone"))])),
                    (Key::U64(2), keyed(1, "low2", vec![])),
                ],
            ),
        )],
    );
    let curr = keyed(
        1,
        "top",
        vec![(
            Key::Str("A"),
            keyed(
                1,
                "mid!",
                vec![
                    (Key::U64(2), keyed(1, "low2", vec![(Key::Bytes(std::rc::Rc::new(vec![255])), leaf(3, "born"))])),
                    (Key::U64(1), keyed(1, "low", vec![(Key::I64(-2), leaf(3, "new"))])),
                ],
            ),
        )],
    );
    assert_eq!(
        changes(&curr, &last),
        vec![
            "changed [children.sA] mid! from mid",
            "added [children.sA.children.u2.children.0xff] #0 born",
            "removed [children.sA.children.u1.children.i-3] #1 gone",
            "changed [children.sA.children.u1.children.i-2] new from old",
            "reordered [children.sA.children] [(0, 1)]",
        ]
    );
    let events = diff(&curr, &last);
    let paths: Vec<Path> = events
        .iter()
        .filter_map(|e| match e {
            Event::ParamsChanged { path, .. } => Some(path.clone()),
            _ => None,
        })
        .collect();
    assert_eq!(paths.len(), 2);
    assert_eq!(paths[0], Path::new().add_field("children").add_key(Key::Str("A")));
    assert_eq!(
        paths[1],
        Path::new()
            .add_field("children")
            .add_key(Key::Str("A"))
            .add_field("children")
            .add_key(Key::U64(1))
            .add_field("children")
            .add_key(Key::I64(-2))
    );
}

#[test]
fn fields_are_compared_in_their_order() {
    let make = |a: &str, b: Option<&str>, c: &str| -> Tree {
        let mut m = Multi::new();
        m.push(Key::U64(0), leaf(3, c));
        Node::element(
            8,
            "p".to_string(),
            vec![
                Field::new("first", Child::Single(Single::new(leaf(3, a)))),
                Field::new("second", Child::Optional(Optional::new(b.map(|t| leaf(3, t))))),
                Field::new("third", Child::Multi(m)),
            ],
        )
    };
    let last = make("a", Some("b"), "c");
    let curr = make("a2", None, "c2");
    assert_eq!(
        changes(&curr, &last),
        vec![
            "changed [first.] a2 from a",
            "removed [second.] #0 b",
            "changed [third.u0] c2 from c",
        ]
    );
    assert!(curr.has_shape_of(&last));
    assert!(!curr.has_shape_of(&leaf(8, "p")));
    assert!(!leaf(8, "p").has_shape_of(&leaf(9, "p")));
    assert!(leaf(8, "p").has_shape_of(&leaf(8, "q")));
}

#[test]
fn kinds_of_field() {
    let s: Child<u32> = Child::Single(Single::new(1));
    let o: Child<u32> = Child::Optional(Optional::new(None));
    let m: Child<u32> = Child::Multi(Multi::new());
    assert_eq!(s.child_type(), ChildType::Single);
    assert_eq!(o.child_type(), ChildType::Optional);
    assert_eq!(m.child_type(), ChildType::Multi);
    let a: ParamsEventsWrapper<u32> = ParamsEventsWrapper(Some(1));
    let b: ParamsEventsWrapper<u32> = ParamsEventsWrapper::default();
    assert!(b.0.is_none());
    assert!(a == b);
}

#[derive(Default)]
struct Log {
    lines: Vec<String>,
}

impl Differ<u32, Tree> for Log {
    fn diff_added(&mut self, ctx: &mut Context<u32, Tree>, path: &Path, index: usize, curr: &Tree) {
        ctx.ctx += 1;
        self.lines.push(format!("added [{}] #{} {}", path.to_string(), index, params(curr)));
    }

    fn diff_removed(&mut self, ctx: &mut Context<u32, Tree>, path: &Path, index: usize, last: &Tree) {
        ctx.ctx += 1;
        self.lines.push(format!("removed [{}] #{} {}", path.to_string(), index, params(last)));
    }

    fn diff_params_changed(&mut self, ctx: &mut Context<u32, Tree>, path: &Path, curr: &Tree, last: &Tree) {
        ctx.ctx += 1;
        self.lines.push(format!("changed [{}] {} from {}", path.to_string(), params(curr), params(last)));
    }

    fn diff_reordered(&mut self, ctx: &mut Context<u32, Tree>, path: &Path, indices: &Vec<(usize, usize)>) {
        ctx.ctx += 1;
        self.lines.push(format!("reordered [{}] {:?}", path.to_string(), indices));
    }
}

#[test]
fn a_consumer_is_told_of_each_event_in_order() {
    let last = keyed(
        1,
        "r",
        vec![(Key::Str("a"), leaf(3, "a")), (Key::Str("b"), leaf(3, "b")), (Key::Str("c"), leaf(3, "c"))],
    );
    let curr = keyed(
        1,
        "r2",
        vec![(Key::Str("b"), leaf(4, "B")), (Key::Str("a"), leaf(3, "a")), (Key::Str("d"), leaf(3, "d"))],
    );
    let events = diff(&curr, &last);
    let mut ctx: Context<u32, Tree> = Context::new(0);
    let mut log = Log::default();
    notify(&events, &mut ctx, &mut log);
    assert_eq!(
        log.lines,
        vec![
            "changed [] r2 from r",
            "removed [children.sc] #2 c",
            "removed [children.sb] #0 b",
            "added [children.sb] #0 B",
            "added [children.sd] #2 d",
            "reordered [children] [(0, 1)]",
        ]
    );
    assert_eq!(ctx.ctx, 6);
    assert_eq!(
        changes(&curr, &last),
        vec![
            "changed [] r2 from r",
            "removed [children.sc] #2 c",
            "replaced [children.sb] #0 B for b",
            "added [children.sd] #2 d",
            "reordered [children] [(0, 1)]",
        ]
    );
}

#[test]
fn a_consumer_is_told_of_one_event() {
    let old = leaf(3, "old");
    let new = leaf(3, "new");
    let mut ctx: Context<u32, Tree> = Context::new(10);
    let mut log = Log::default();
    let path = Path::new().add_field("children").add_key(Key::U64(4));
    tell(&Event::Added { path: path.clone(), index: 4, node: &new }, &mut ctx, &mut log);
    tell(&Event::Removed { path: path.clone(), index: 2, node: &old }, &mut ctx, &mut log);
    tell(&Event::ParamsChanged { path: path.clone(), curr: &new, last: &old }, &mut ctx, &mut log);
    tell(&Event::Replaced { path: path.clone(), index: 1, curr: &new, last: &old }, &mut ctx, &mut log);
    tell(&Event::Reordered { path: path.clone(), pairs: vec![(0, 1)] }, &mut ctx, &mut log);
    tell(&Event::EnterCurr { path: path.clone(), node: &new }, &mut ctx, &mut log);
    tell(&Event::ExitLast { path: path.clone(), node: &old }, &mut ctx, &mut log);
    assert_eq!(
        log.lines,
        vec![
            "added [children.u4] #4 new",
            "removed [children.u4] #2 old",
            "changed [children.u4] new from old",
            "removed [children.u4] #1 old",
            "added [children.u4] #1 new",
            "reordered [children.u4] [(0, 1)]",
        ]
    );
    assert_eq!(ctx.ctx, 16);
}

#[test]
fn field_names_are_told_apart() {
    let good = sample();
    assert!(good.is_named());
    let twice = Node::element(
        8,
        "p".to_string(),
        vec![
            Field::new("one", Child::Single(Single::new(leaf(3, "a")))),
            Field::new("one", Child::Optional(Optional::new(None))),
        ],
    );
    assert!(!twice.is_named());
    let below = with_single(2, "p", with_optional(4, "q", Some(twice)));
    assert!(!below.is_named());
    assert!(keyed(1, "r", vec![(Key::U64(1), leaf(3, "x"))]).is_named());
    assert!(!keyed(1, "r", vec![(Key::U64(1), below)]).is_named());
    let two = Node::element(
        8,
        "p".to_string(),
        vec![
            Field::new("one", Child::Single(Single::new(leaf(3, "a")))),
            Field::new("two", Child::Optional(Optional::new(None))),
        ],
    );
    assert!(two.is_named());
}
