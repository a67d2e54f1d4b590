use vtree::diff::Context;
use vtree::diff::Path;
use vtree::diff::PathEntry;
use vtree::diff::PathFrame;
use vtree::diff::PathIndexEntry;
use vtree::diff::SimplePathFrame;
use vtree::key::Key;

fn texts(p: &Path) -> Vec<String> {
    p.iter().iter().map(|e| e.to_string()).collect()
}

#[test]
fn path_of_the_root_is_empty() {
    let p = Path::new();
    assert_eq!(p.len(), 0);
    assert!(p.iter().is_empty());
    assert_eq!(p.to_string(), "");
}

#[test]
fn path_grows_by_one_step_and_leaves_the_old_path() {
    let root = Path::new();
    let a = root.add_field("children");
    let b = a.add_key(Key::U64(7));
    let c = b.add_empty();
    assert_eq!(root.len(), 0);
    assert_eq!(a.len(), 1);
    assert_eq!(b.len(), 2);
    assert_eq!(c.len(), 3);
    assert_eq!(texts(&c), vec!["children", "u7", ""]);
    assert_eq!(a.to_string(), "children");
    assert_eq!(b.to_string(), "children.u7");
    assert_eq!(c.to_string(), "children.u7.");
    assert_eq!(b.add(PathEntry::Key(Key::Str("x"))).to_string(), "children.u7.sx");
}

#[test]
fn path_text_joins_steps_with_dots() {
    let p = Path::new()
        .add_key(Key::I64(-3))
        .add_empty()
        .add_empty()
        .add_key(Key::Bytes(std::rc::Rc::new(vec![0xab])));
    assert_eq!(p.to_string(), "i-3...0xab");
    assert_eq!(Path::new().add_empty().to_string(), "");
    assert_eq!(Path::new().add_empty().add_empty().to_string(), ".");
}

#[test]
fn path_splits_and_extends() {
    let p = Path::new().add_key(Key::U64(1)).add_field("f").add_key(Key::U64(2));
    let (left, right) = p.split_at(1);
    assert_eq!(texts(&left), vec!["u1"]);
    assert_eq!(texts(&right), vec!["f", "u2"]);
    let (all, none) = p.split_at(3);
    assert_eq!(all, p);
    assert_eq!(none.len(), 0);
    let (none, all) = p.split_at(0);
    assert_eq!(none.len(), 0);
    assert_eq!(all, p);
    let joined = left.extend(vec![PathEntry::Field("f"), PathEntry::Key(Key::U64(2))]);
    assert_eq!(joined, p);
    assert_eq!(p.extend(vec![]), p);
    assert_eq!(p.len(), 3);
}

#[test]
fn paths_are_equal_by_their_steps() {
    let a = Path::new().add_key(Key::Str("k")).add_empty();
    let b = Path::new().add_key(Key::String(std::rc::Rc::new("k".to_string()))).add_empty();
    let c = Path::new().add_key(Key::Str("k"));
    let d = Path::new().add_key(Key::Str("k")).add_field("");
    assert!(a == b);
    assert!(a.same(&b));
    assert!(a != c);
    assert!(a != d);
    assert!(a.clone() == a);
    assert!(PathEntry::Empty == PathEntry::Empty);
    assert!(PathEntry::Field("a") == PathEntry::Field("a"));
    assert!(PathEntry::Field("a") != PathEntry::Field("b"));
    assert!(PathEntry::Field("a") != PathEntry::Key(Key::Str("a")));
    assert!(PathEntry::Key(Key::U64(1)).clone() == PathEntry::Key(Key::U64(1)));
}

#[test]
fn simple_frames_give_the_path_from_the_root() {
    let root = SimplePathFrame::new();
    assert!(root.parent().is_none());
    assert_eq!(*root.path_entry(), PathEntry::Empty);
    assert_eq!(root.to_path().len(), 1);
    assert_eq!(root.to_path().to_string(), "");
    assert_eq!(root.to_steps().len(), 0);
    let a = root.add_key(Key::U64(1));
    let b = a.add_empty();
    let c = b.add_key(Key::U64(2));
    let path = c.to_path();
    assert_eq!(path.len(), 4);
    let steps: Vec<PathEntry> = path.iter().iter().map(|e| (*e).clone()).collect();
    assert_eq!(
        steps,
        vec![PathEntry::Empty, PathEntry::Key(Key::U64(1)), PathEntry::Empty, PathEntry::Key(Key::U64(2))]
    );
    assert_eq!(path.to_string(), ".u1..u2");
    assert_eq!(c.to_steps().to_string(), "u1..u2");
    assert_eq!(a.to_path().len(), 2);
    assert_eq!(b.to_path().len(), 3);
    assert_eq!(root.to_path().len(), 1);
    let field = root.add_field("children");
    let child = field.add_key(Key::U64(4));
    let inner = child.add_empty();
    assert_eq!(inner.to_path().to_string(), ".children.u4.");
    assert_eq!(inner.to_steps().to_string(), "children.u4.");
    assert_eq!(*inner.parent().unwrap().path_entry(), PathEntry::Key(Key::U64(4)));
    let down: Vec<String> = inner.iter().iter().map(|f| f.path_entry().to_string()).collect();
    assert_eq!(down, vec!["", "children", "u4", ""]);
    assert!(inner.iter()[0].parent().is_none());
    let mut walk = inner.ancestors();
    let mut up = vec![];
    while let Some(f) = walk.next() {
        up.push(f.path_entry().to_string());
    }
    assert_eq!(up, vec!["", "u4", "children", ""]);
    assert!(walk.next().is_none());
}

#[test]
fn frames_hold_nodes_and_positions() {
    let n0 = 10u32;
    let n1 = 11u32;
    let n2 = 12u32;
    let n3 = 13u32;
    let r = PathFrame::new(&n0);
    assert!(r.parent().is_none());
    assert_eq!(*r.node(), 10);
    assert_eq!(r.to_path().len(), 1);
    assert_eq!(r.to_path_entry(), PathEntry::Empty);
    let a = r.add_key(Key::U64(1), 0, &n1);
    let b = a.add_key(Key::U64(2), 4, &n2);
    let c = b.add_key(Key::U64(3), 1, &n3);
    let steps: Vec<PathEntry> = c.to_path().iter().iter().map(|e| (*e).clone()).collect();
    assert_eq!(
        steps,
        vec![
            PathEntry::Empty,
            PathEntry::Key(Key::U64(1)),
            PathEntry::Key(Key::U64(2)),
            PathEntry::Key(Key::U64(3)),
        ]
    );
    assert_eq!(c.to_path().to_string(), ".u1.u2.u3");
    assert_eq!(c.to_steps().to_string(), "u1.u2.u3");
    let down: Vec<u32> = c.iter().iter().map(|f| *f.node()).collect();
    assert_eq!(down, vec![10, 11, 12, 13]);
    assert_eq!(r.iter().len(), 1);
    assert_eq!(b.path_index_entry().position(), 4);
    assert_eq!(c.path_index_entry().position(), 1);
    assert_eq!(r.path_index_entry().position(), 0);
    assert_eq!(c.to_path_entry(), PathEntry::Key(Key::U64(3)));
    assert!(matches!(b.path_index_entry(), PathIndexEntry::Key(_, 4)));
    assert!(matches!(b.path_index_entry().clone(), PathIndexEntry::Key(_, 4)));
    let field = r.add_field("items", &n0);
    let inner = field.add_empty(&n1);
    assert_eq!(field.path_index_entry().to_path_entry(), PathEntry::Field("items"));
    assert_eq!(inner.to_path().to_string(), ".items.");
    assert_eq!(*c.parent().unwrap().node(), 12);
    let mut walk = c.ancestors();
    let mut up = vec![];
    while let Some(f) = walk.next() {
        up.push(*f.node());
    }
    assert_eq!(up, vec![13, 12, 11, 10]);
}

#[test]
fn context_wraps_the_state_of_the_consumer() {
    let ctx: Context<Vec<u8>, u32> = Context::new(vec![1, 2]);
    assert_eq!(ctx.ctx, vec![1, 2]);
}
