//! Paths from the root of a tree to a node, the frames that carry a path
//! down a walk, and the interface through which a consumer learns of changes.

use vstd::prelude::*;
use vstd::std_specs::cmp::PartialEqSpecImpl;
use vstd::string::StringExecFns;
use std::marker::PhantomData;
use crate::key::text_equal;
use crate::key::Key;
use crate::key::KeyView;

verus! {

/// One step of a path, with the position of the child where it has one.
#[derive(Debug)]
pub enum PathIndexEntry {
    Key(Key, usize),
    Field(&'static str),
    /// The step into a single or an optional child.
    Empty,
}

/// One step of a path.
#[derive(Debug)]
pub enum PathEntry {
    Key(Key),
    Field(&'static str),
    /// The step into a single or an optional child.
    Empty,
}

/// What a step of a path stands for.
pub enum PathEntryView {
    Key(KeyView),
    Field(Seq<char>),
    Empty,
}

impl PathEntryView {
    /// The written form of a step: that of its key, the name of its
    /// field, or nothing.
    pub open spec fn text(self) -> Seq<char> {
        match self {
            PathEntryView::Key(k) => k.text(),
            PathEntryView::Field(n) => n,
            PathEntryView::Empty => Seq::empty(),
        }
    }
}

impl View for PathEntry {
    type V = PathEntryView;

    open spec fn view(&self) -> PathEntryView {
        match *self {
            PathEntry::Key(k) => PathEntryView::Key(k@),
            PathEntry::Field(n) => PathEntryView::Field(n@),
            PathEntry::Empty => PathEntryView::Empty,
        }
    }
}

impl PathIndexEntry {
    /// The step without the position.
    pub open spec fn entry(&self) -> PathEntry {
        match *self {
            PathIndexEntry::Key(k, _) => PathEntry::Key(k),
            PathIndexEntry::Field(n) => PathEntry::Field(n),
            PathIndexEntry::Empty => PathEntry::Empty,
        }
    }

    /// The position of the child among its siblings: that of a keyed
    /// child, else 0.
    pub open spec fn index(&self) -> usize {
        match *self {
            PathIndexEntry::Key(_, i) => i,
            _ => 0,
        }
    }

    /// The step without the position.
    pub fn to_path_entry(&self) -> (e: PathEntry)
        ensures
            e == self.entry(),
    {
        match self {
            PathIndexEntry::Key(k, _) => PathEntry::Key(k.clone()),
            PathIndexEntry::Field(n) => PathEntry::Field(n),
            PathIndexEntry::Empty => PathEntry::Empty,
        }
    }

    /// The position of the child among its siblings.
    pub fn position(&self) -> (i: usize)
        ensures
            i == self.index(),
    {
        match self {
            PathIndexEntry::Key(_, i) => *i,
            _ => 0,
        }
    }
}

impl Clone for PathIndexEntry {
    fn clone(&self) -> (res: PathIndexEntry)
        ensures
            res == *self,
    {
        match self {
            PathIndexEntry::Key(k, i) => PathIndexEntry::Key(k.clone(), *i),
            PathIndexEntry::Field(n) => PathIndexEntry::Field(n),
            PathIndexEntry::Empty => PathIndexEntry::Empty,
        }
    }
}

impl PathEntry {
    /// Whether two steps select the same child.
    pub fn same(&self, other: &PathEntry) -> (r: bool)
        ensures
            r == (self@ == other@),
    {
        match (self, other) {
            (PathEntry::Key(a), PathEntry::Key(b)) => a.same(b),
            (PathEntry::Field(a), PathEntry::Field(b)) => text_equal(a, b),
            (PathEntry::Empty, PathEntry::Empty) => true,
            _ => false,
        }
    }

    /// The written form of the step.
    pub fn to_string(&self) -> (out: String)
        ensures
            out@ == self@.text(),
    {
        match self {
            PathEntry::Key(k) => k.to_string(),
            PathEntry::Field(n) => String::from_str(n),
            PathEntry::Empty => String::new(),
        }
    }
}

impl Clone for PathEntry {
    fn clone(&self) -> (res: PathEntry)
        ensures
            res == *self,
    {
        match self {
            PathEntry::Key(k) => PathEntry::Key(k.clone()),
            PathEntry::Field(n) => PathEntry::Field(n),
            PathEntry::Empty => PathEntry::Empty,
        }
    }
}

impl PartialEq for PathEntry {
    fn eq(&self, other: &PathEntry) -> (r: bool) {
        self.same(other)
    }
}

impl PartialEqSpecImpl for PathEntry {
    open spec fn obeys_eq_spec() -> bool {
        true
    }

    open spec fn eq_spec(&self, other: &PathEntry) -> bool {
        self@ == other@
    }
}

impl Eq for PathEntry {

}

/// The consumer's own state, carried through a walk untouched.
#[derive(Debug)]
pub struct Context<CTX, AN> {
    pub ctx: CTX,
    pub pd: PhantomData<AN>,
}

impl<CTX, AN> Context<CTX, AN> {
    /// Wraps the consumer's state.
    pub fn new(ctx: CTX) -> (c: Context<CTX, AN>)
        ensures
            c.ctx == ctx,
    {
        Context { ctx, pd: PhantomData }
    }
}

/// What a consumer implements to learn of the changes between two trees.
pub trait Differ<CTX, AN> {
    /// A node that only the current tree has.
    fn diff_added(&mut self, ctx: &mut Context<CTX, AN>, path: &Path, index: usize, curr: &AN);

    /// A node that only the prior tree has.
    fn diff_removed(&mut self, ctx: &mut Context<CTX, AN>, path: &Path, index: usize, last: &AN);

    /// A node in the place of one of another shape. Unless it is
    /// overridden, the prior node is reported as removed and the current
    /// one as added.
    fn diff_replaced(
        &mut self,
        ctx: &mut Context<CTX, AN>,
        path: &Path,
        index: usize,
        curr: &AN,
        last: &AN,
    ) where Self: Sized
        default_ensures
            exists|d1: &mut Self, c1: &mut Context<CTX, AN>, d2: &mut Self, c2: &mut Context<CTX, AN>|
                {
                    &&& #[trigger] call_ensures(Self::diff_removed, (d1, c1, path, index, last), ())
                    &&& #[trigger] call_ensures(Self::diff_added, (d2, c2, path, index, curr), ())
                    &&& *d1 == *old(self)
                    &&& *c1 == *old(ctx)
                    &&& *d2 == *final(d1)
                    &&& *c2 == *final(c1)
                    &&& *final(self) == *final(d2)
                    &&& *final(ctx) == *final(c2)
                },
    {
        self.diff_removed(ctx, path, index, last);
        self.diff_added(ctx, path, index, curr);
    }

    /// Two nodes of one shape in one place whose attributes differ.
    fn diff_params_changed(&mut self, ctx: &mut Context<CTX, AN>, path: &Path, curr: &AN, last: &AN);

    /// The exchanges that reconcile the order of the keyed list in the
    /// field at `path` with its prior order; each names one child by its
    /// position in the current list and its position in the prior list.
    fn diff_reordered(
        &mut self,
        ctx: &mut Context<CTX, AN>,
        path: &Path,
        indices: &Vec<(usize, usize)>,
    );

    /// Before the events of a node of the current tree.
    fn on_enter_curr(&mut self, ctx: &mut Context<CTX, AN>, path: &Path, curr: &AN) {
    }

    /// After the events of a node of the current tree.
    fn on_exit_curr(&mut self, ctx: &mut Context<CTX, AN>, path: &Path, curr: &AN) {
    }

    /// Before the events of a node of the prior tree.
    fn on_enter_last(&mut self, ctx: &mut Context<CTX, AN>, path: &Path, last: &AN) {
    }

    /// After the events of a node of the prior tree.
    fn on_exit_last(&mut self, ctx: &mut Context<CTX, AN>, path: &Path, last: &AN) {
    }
}

/// The steps from the root of a tree to a node.
#[derive(Debug)]
pub struct Path {
    pub path: Vec<PathEntry>,
}

/// The views of a list of steps.
pub open spec fn entry_views(entries: Seq<PathEntry>) -> Seq<PathEntryView> {
    entries.map_values(|e: PathEntry| e@)
}

/// The written form of a path: those of its steps, with a dot between
/// two steps.
pub open spec fn path_text(entries: Seq<PathEntryView>) -> Seq<char>
    decreases entries.len(),
{
    if entries.len() == 0 {
        Seq::empty()
    } else if entries.len() == 1 {
        entries[0].text()
    } else {
        path_text(entries.drop_last()) + seq!['.'] + entries.last().text()
    }
}

impl View for Path {
    type V = Seq<PathEntryView>;

    open spec fn view(&self) -> Seq<PathEntryView> {
        entry_views(self.path@)
    }
}

impl Path {
    /// The path of the root: no step.
    pub fn new() -> (p: Path)
        ensures
            p.path@ == Seq::<PathEntry>::empty(),
    {
        Path { path: Vec::new() }
    }

    /// The number of steps.
    pub fn len(&self) -> (n: usize)
        ensures
            n == self.path@.len(),
    {
        self.path.len()
    }

    /// The steps, from the root down.
    pub fn iter<'a>(&'a self) -> (r: Vec<&'a PathEntry>)
        ensures
            r@ == Seq::new(self.path@.len(), |i: int| &self.path@[i]),
    {
        let mut out: Vec<&'a PathEntry> = Vec::with_capacity(self.path.len());
        let mut i: usize = 0;
        while i < self.path.len()
            invariant
                i <= self.path@.len(),
                out@ == Seq::new(i as nat, |k: int| &self.path@[k]),
            decreases self.path@.len() - i,
        {
            out.push(&self.path[i]);
            assert(out@ =~= Seq::new((i + 1) as nat, |k: int| &self.path@[k]));
            i += 1;
        }
        out
    }

    /// A copy of the first `n` steps.
    fn prefix(&self, n: usize) -> (p: Path)
        requires
            n <= self.path@.len(),
        ensures
            p.path@ == self.path@.take(n as int),
    {
        self.slice(0, n)
    }

    /// A copy of the steps from `from` up to `to`.
    fn slice(&self, from: usize, to: usize) -> (p: Path)
        requires
            from <= to <= self.path@.len(),
        ensures
            p.path@ == self.path@.subrange(from as int, to as int),
    {
        let mut out: Vec<PathEntry> = Vec::with_capacity(to - from);
        let mut i: usize = from;
        while i < to
            invariant
                from <= i <= to <= self.path@.len(),
                out@ == self.path@.subrange(from as int, i as int),
            decreases to - i,
        {
            out.push(self.path[i].clone());
            assert(out@ =~= self.path@.subrange(from as int, i + 1));
            i += 1;
        }
        Path { path: out }
    }

    /// The path with one more step.
    pub fn add(&self, entry: PathEntry) -> (p: Path)
        ensures
            p.path@ == self.path@.push(entry),
    {
        let mut p = self.prefix(self.path.len());
        assert(self.path@.take(self.path@.len() as int) =~= self.path@);
        p.path.push(entry);
        p
    }

    /// The path with one more step, to the child under key `k`.
    pub fn add_key(&self, k: Key) -> (p: Path)
        ensures
            p.path@ == self.path@.push(PathEntry::Key(k)),
    {
        self.add(PathEntry::Key(k))
    }

    /// The path with one more step, into the field named `n`.
    pub fn add_field(&self, n: &'static str) -> (p: Path)
        ensures
            p.path@ == self.path@.push(PathEntry::Field(n)),
    {
        self.add(PathEntry::Field(n))
    }

    /// The path with one more step, into a single or an optional child.
    pub fn add_empty(&self) -> (p: Path)
        ensures
            p.path@ == self.path@.push(PathEntry::Empty),
    {
        self.add(PathEntry::Empty)
    }

    /// The first `mid` steps, and the rest.
    pub fn split_at(&self, mid: usize) -> (r: (Path, Path))
        requires
            mid <= self.path@.len(),
        ensures
            r.0.path@ == self.path@.take(mid as int),
            r.1.path@ == self.path@.skip(mid as int),
    {
        let left = self.prefix(mid);
        let right = self.slice(mid, self.path.len());
        assert(self.path@.subrange(mid as int, self.path@.len() as int) =~= self.path@.skip(
            mid as int,
        ));
        (left, right)
    }

    /// The path with the steps of `more` after its own.
    pub fn extend(&self, more: Vec<PathEntry>) -> (p: Path)
        ensures
            p.path@ == self.path@ + more@,
    {
        let mut p = self.prefix(self.path.len());
        assert(self.path@.take(self.path@.len() as int) =~= self.path@);
        let mut more = more;
        p.path.append(&mut more);
        p
    }

    /// Whether two paths have the same steps.
    pub fn same(&self, other: &Path) -> (r: bool)
        ensures
            r == (self@ == other@),
    {
        if self.path.len() != other.path.len() {
            assert(self@.len() != other@.len());
            return false;
        }
        let mut i: usize = 0;
        while i < self.path.len()
            invariant
                self.path@.len() == other.path@.len(),
                i <= self.path@.len(),
                forall|k: int| 0 <= k < i ==> self.path@[k]@ == other.path@[k]@,
            decreases self.path@.len() - i,
        {
            if !self.path[i].same(&other.path[i]) {
                assert(self@[i as int] != other@[i as int]);
                return false;
            }
            i += 1;
        }
        assert(self@ =~= other@);
        true
    }

    /// The written form of the path.
    pub fn to_string(&self) -> (out: String)
        ensures
            out@ == path_text(self@),
    {
        let mut out = String::new();
        let mut i: usize = 0;
        assert(self@.take(0) =~= Seq::<PathEntryView>::empty());
        while i < self.path.len()
            invariant
                i <= self.path@.len(),
                out@ == path_text(self@.take(i as int)),
            decreases self.path@.len() - i,
        {
            if 0 < i {
                proof {
                    reveal_strlit(".");
                }
                out.append(".");
            }
            let step = self.path[i].to_string();
            out.append(step.as_str());
            proof {
                let next = self@.take(i + 1);
                assert(next.drop_last() =~= self@.take(i as int));
                assert(next.last() == self.path@[i as int]@);
                assert(out@ =~= path_text(next));
            }
            i += 1;
        }
        assert(self@.take(self.path@.len() as int) =~= self@);
        out
    }
}

impl Clone for Path {
    fn clone(&self) -> (res: Path)
        ensures
            res.path@ == self.path@,
    {
        let p = self.prefix(self.path.len());
        assert(self.path@.take(self.path@.len() as int) =~= self.path@);
        p
    }
}

impl PartialEq for Path {
    fn eq(&self, other: &Path) -> (r: bool) {
        self.same(other)
    }
}

impl PartialEqSpecImpl for Path {
    open spec fn obeys_eq_spec() -> bool {
        true
    }

    open spec fn eq_spec(&self, other: &Path) -> bool {
        self@ == other@
    }
}

impl Eq for Path {

}

/// A path under construction: one step, and the frame of the path up to it.
/// A walk holds one frame for each level on its stack.
pub struct SimplePathFrame<'a> {
    pub parent: Option<&'a SimplePathFrame<'a>>,
    pub path_entry: PathEntry,
}

/// Walks from a frame up to the root.
pub struct SimplePathFrameIter<'a>(pub Option<&'a SimplePathFrame<'a>>);

impl<'a> SimplePathFrame<'a> {
    /// The number of steps from the root.
    pub open spec fn depth(&self) -> nat
        decreases self,
    {
        match self.parent {
            None => 0,
            Some(p) => p.depth() + 1,
        }
    }

    /// The steps from the root down to this frame, without the step of the
    /// root's own frame.
    pub open spec fn steps(&self) -> Seq<PathEntry>
        decreases self,
    {
        match self.parent {
            None => Seq::empty(),
            Some(p) => p.steps().push(self.path_entry),
        }
    }


    /// The path of this frame: the step of every frame from the root down
    /// to this one, the root's first.
    pub open spec fn path(&self) -> Seq<PathEntry>
        decreases self,
    {
        match self.parent {
            None => seq![self.path_entry],
            Some(p) => p.path().push(self.path_entry),
        }
    }

    /// The frames from the root down to this one: the frame at place `i`
    /// is the ancestor at depth `i`, and the last is this frame.
    pub open spec fn frames(&'a self) -> Seq<&'a SimplePathFrame<'a>>
        decreases self,
    {
        match self.parent {
            None => seq![self],
            Some(p) => p.frames().push(self),
        }
    }

    /// Appends the frames from the root down to this one.
    fn collect(&'a self, out: &mut Vec<&'a SimplePathFrame<'a>>)
        ensures
            final(out)@ == old(out)@ + self.frames(),
        decreases self,
    {
        match self.parent {
            None => {
                out.push(self);
                assert(out@ =~= old(out)@ + self.frames());
            },
            Some(p) => {
                p.collect(out);
                out.push(self);
                assert(out@ =~= old(out)@ + self.frames());
            },
        }
    }

    /// The frames from the root down to this one.
    pub fn iter(&'a self) -> (r: Vec<&'a SimplePathFrame<'a>>)
        ensures
            r@ == self.frames(),
            r@.len() == self.depth() + 1,
    {
        let mut out: Vec<&'a SimplePathFrame<'a>> = Vec::new();
        self.collect(&mut out);
        assert(out@ =~= self.frames());
        proof {
            self.lemma_frames_len();
        }
        out
    }

    /// There is one frame for each step of the path.
    pub proof fn lemma_frames_len(&'a self)
        ensures
            self.frames().len() == self.depth() + 1,
            self.path().len() == self.depth() + 1,
            self.steps().len() == self.depth(),
        decreases self,
    {
        match self.parent {
            None => {},
            Some(p) => {
                p.lemma_frames_len();
            },
        }
    }

    /// Appends the step of every frame from the root down to this one.
    fn fill(&self, out: &mut Vec<PathEntry>)
        ensures
            final(out)@ == old(out)@ + self.path(),
        decreases self,
    {
        match self.parent {
            None => {
                out.push(self.path_entry.clone());
                assert(out@ =~= old(out)@ + self.path());
            },
            Some(p) => {
                p.fill(out);
                out.push(self.path_entry.clone());
                assert(out@ =~= old(out)@ + self.path());
            },
        }
    }

    /// The path of this frame, as a path of its own: the step of every
    /// frame from the root down to this one, the root's first.
    pub fn to_path(&self) -> (p: Path)
        ensures
            p.path@ == self.path(),
    {
        let mut out: Vec<PathEntry> = Vec::new();
        self.fill(&mut out);
        assert(out@ =~= self.path());
        Path { path: out }
    }

    /// The frame of the root.
    pub fn new() -> (f: SimplePathFrame<'a>)
        ensures
            f.parent.is_none(),
            f.path_entry == PathEntry::Empty,
            f.steps() == Seq::<PathEntry>::empty(),
            f.path() == seq![PathEntry::Empty],
    {
        SimplePathFrame { parent: None, path_entry: PathEntry::Empty }
    }

    /// The frame one step further, at the child under `key`.
    pub fn add_key(&'a self, key: Key) -> (f: SimplePathFrame<'a>)
        ensures
            f.parent == Some(self),
            f.path_entry == PathEntry::Key(key),
            f.steps() == self.steps().push(PathEntry::Key(key)),
            f.path() == self.path().push(PathEntry::Key(key)),
    {
        SimplePathFrame { parent: Some(self), path_entry: PathEntry::Key(key) }
    }

    /// The frame one step further, in the field named `name`.
    pub fn add_field(&'a self, name: &'static str) -> (f: SimplePathFrame<'a>)
        ensures
            f.parent == Some(self),
            f.path_entry == PathEntry::Field(name),
            f.steps() == self.steps().push(PathEntry::Field(name)),
            f.path() == self.path().push(PathEntry::Field(name)),
    {
        SimplePathFrame { parent: Some(self), path_entry: PathEntry::Field(name) }
    }

    /// The frame one step further, at a single or an optional child.
    pub fn add_empty(&'a self) -> (f: SimplePathFrame<'a>)
        ensures
            f.parent == Some(self),
            f.path_entry == PathEntry::Empty,
            f.steps() == self.steps().push(PathEntry::Empty),
            f.path() == self.path().push(PathEntry::Empty),
    {
        SimplePathFrame { parent: Some(self), path_entry: PathEntry::Empty }
    }

    /// The frame one step back, unless this is the root.
    pub fn parent(&'a self) -> (p: Option<&'a SimplePathFrame<'a>>)
        ensures
            p == self.parent,
    {
        self.parent
    }

    /// The last step.
    pub fn path_entry(&self) -> (e: &PathEntry)
        ensures
            *e == self.path_entry,
    {
        &self.path_entry
    }

    /// A walk from this frame up to the root.
    pub fn ancestors(&'a self) -> (it: SimplePathFrameIter<'a>)
        ensures
            it.0 == Some(self),
    {
        SimplePathFrameIter(Some(self))
    }

    /// Appends the steps from the root down to this frame.
    fn fill_steps(&self, out: &mut Vec<PathEntry>)
        ensures
            final(out)@ == old(out)@ + self.steps(),
        decreases self,
    {
        match self.parent {
            None => {
                assert(out@ =~= old(out)@ + self.steps());
            },
            Some(p) => {
                p.fill_steps(out);
                out.push(self.path_entry.clone());
                assert(out@ =~= old(out)@ + self.steps());
            },
        }
    }

    /// The steps from the root down to this frame, without the step of the
    /// root's own frame, as a path of its own.
    pub fn to_steps(&self) -> (p: Path)
        ensures
            p.path@ == self.steps(),
    {
        let mut out: Vec<PathEntry> = Vec::new();
        self.fill_steps(&mut out);
        assert(out@ =~= self.steps());
        Path { path: out }
    }
}

impl<'a> SimplePathFrameIter<'a> {
    /// The frame that the walk stands at, from which it moves one step
    /// towards the root; `None` once it has passed the root.
    pub fn next(&mut self) -> (r: Option<&'a SimplePathFrame<'a>>)
        ensures
            r == old(self).0,
            final(self).0 == match old(self).0 {
                Some(f) => f.parent,
                None => None,
            },
    {
        let at = self.0;
        self.0 = match at {
            Some(f) => f.parent,
            None => None,
        };
        at
    }
}

/// A path under construction that also holds the node at each step.
pub struct PathFrame<'a, AN> {
    pub parent: Option<&'a PathFrame<'a, AN>>,
    pub node: &'a AN,
    pub path_index_entry: PathIndexEntry,
}

/// Walks from a frame up to the root.
pub struct PathFrameIter<'a, AN>(pub Option<&'a PathFrame<'a, AN>>);

impl<'a, AN> PathFrame<'a, AN> {
    /// The number of steps from the root.
    pub open spec fn depth(&self) -> nat
        decreases self,
    {
        match self.parent {
            None => 0,
            Some(p) => p.depth() + 1,
        }
    }

    /// The steps from the root down to this frame, without the step of the
    /// root's own frame.
    pub open spec fn steps(&self) -> Seq<PathEntry>
        decreases self,
    {
        match self.parent {
            None => Seq::empty(),
            Some(p) => p.steps().push(self.path_index_entry.entry()),
        }
    }


    /// The path of this frame: the step of every frame from the root down
    /// to this one, the root's first.
    pub open spec fn path(&self) -> Seq<PathEntry>
        decreases self,
    {
        match self.parent {
            None => seq![self.path_index_entry.entry()],
            Some(p) => p.path().push(self.path_index_entry.entry()),
        }
    }

    /// The frames from the root down to this one: the frame at place `i`
    /// is the ancestor at depth `i`, and the last is this frame.
    pub open spec fn frames(&'a self) -> Seq<&'a PathFrame<'a, AN>>
        decreases self,
    {
        match self.parent {
            None => seq![self],
            Some(p) => p.frames().push(self),
        }
    }

    /// Appends the frames from the root down to this one.
    fn collect(&'a self, out: &mut Vec<&'a PathFrame<'a, AN>>)
        ensures
            final(out)@ == old(out)@ + self.frames(),
        decreases self,
    {
        match self.parent {
            None => {
                out.push(self);
                assert(out@ =~= old(out)@ + self.frames());
            },
            Some(p) => {
                p.collect(out);
                out.push(self);
                assert(out@ =~= old(out)@ + self.frames());
            },
        }
    }

    /// The frames from the root down to this one.
    pub fn iter(&'a self) -> (r: Vec<&'a PathFrame<'a, AN>>)
        ensures
            r@ == self.frames(),
            r@.len() == self.depth() + 1,
    {
        let mut out: Vec<&'a PathFrame<'a, AN>> = Vec::new();
        self.collect(&mut out);
        assert(out@ =~= self.frames());
        proof {
            self.lemma_frames_len();
        }
        out
    }

    /// There is one frame for each step of the path.
    pub proof fn lemma_frames_len(&'a self)
        ensures
            self.frames().len() == self.depth() + 1,
            self.path().len() == self.depth() + 1,
            self.steps().len() == self.depth(),
        decreases self,
    {
        match self.parent {
            None => {},
            Some(p) => {
                p.lemma_frames_len();
            },
        }
    }

    /// Appends the step of every frame from the root down to this one.
    fn fill(&self, out: &mut Vec<PathEntry>)
        ensures
            final(out)@ == old(out)@ + self.path(),
        decreases self,
    {
        match self.parent {
            None => {
                out.push(self.to_path_entry());
                assert(out@ =~= old(out)@ + self.path());
            },
            Some(p) => {
                p.fill(out);
                out.push(self.to_path_entry());
                assert(out@ =~= old(out)@ + self.path());
            },
        }
    }

    /// The path of this frame, as a path of its own: the step of every
    /// frame from the root down to this one, the root's first.
    pub fn to_path(&self) -> (p: Path)
        ensures
            p.path@ == self.path(),
    {
        let mut out: Vec<PathEntry> = Vec::new();
        self.fill(&mut out);
        assert(out@ =~= self.path());
        Path { path: out }
    }

    /// The frame of the root, which is `node`.
    pub fn new(node: &'a AN) -> (f: PathFrame<'a, AN>)
        ensures
            f.parent.is_none(),
            f.node == node,
            f.path_index_entry == PathIndexEntry::Empty,
            f.steps() == Seq::<PathEntry>::empty(),
            f.path() == seq![PathEntry::Empty],
    {
        PathFrame { parent: None, node, path_index_entry: PathIndexEntry::Empty }
    }

    /// The frame one step further, at the child `node` that stands under
    /// `key` at position `index`.
    pub fn add_key(&'a self, key: Key, index: usize, node: &'a AN) -> (f: PathFrame<'a, AN>)
        ensures
            f.parent == Some(self),
            f.node == node,
            f.path_index_entry == PathIndexEntry::Key(key, index),
            f.steps() == self.steps().push(PathEntry::Key(key)),
            f.path() == self.path().push(PathEntry::Key(key)),
    {
        PathFrame { parent: Some(self), node, path_index_entry: PathIndexEntry::Key(key, index) }
    }

    /// The frame one step further, in the field named `name` of `node`.
    pub fn add_field(&'a self, name: &'static str, node: &'a AN) -> (f: PathFrame<'a, AN>)
        ensures
            f.parent == Some(self),
            f.node == node,
            f.path_index_entry == PathIndexEntry::Field(name),
            f.steps() == self.steps().push(PathEntry::Field(name)),
            f.path() == self.path().push(PathEntry::Field(name)),
    {
        PathFrame { parent: Some(self), node, path_index_entry: PathIndexEntry::Field(name) }
    }

    /// The frame one step further, at the single or optional child `node`.
    pub fn add_empty(&'a self, node: &'a AN) -> (f: PathFrame<'a, AN>)
        ensures
            f.parent == Some(self),
            f.node == node,
            f.path_index_entry == PathIndexEntry::Empty,
            f.steps() == self.steps().push(PathEntry::Empty),
            f.path() == self.path().push(PathEntry::Empty),
    {
        PathFrame { parent: Some(self), node, path_index_entry: PathIndexEntry::Empty }
    }

    /// The frame one step back, unless this is the root.
    pub fn parent(&'a self) -> (p: Option<&'a PathFrame<'a, AN>>)
        ensures
            p == self.parent,
    {
        self.parent
    }

    /// The node at this step.
    pub fn node(&self) -> (n: &AN)
        ensures
            n == self.node,
    {
        self.node
    }

    /// The last step, with the position of the node.
    pub fn path_index_entry(&self) -> (e: &PathIndexEntry)
        ensures
            *e == self.path_index_entry,
    {
        &self.path_index_entry
    }

    /// The last step, without the position.
    pub fn to_path_entry(&self) -> (e: PathEntry)
        ensures
            e == self.path_index_entry.entry(),
    {
        self.path_index_entry.to_path_entry()
    }

    /// A walk from this frame up to the root.
    pub fn ancestors(&'a self) -> (it: PathFrameIter<'a, AN>)
        ensures
            it.0 == Some(self),
    {
        PathFrameIter(Some(self))
    }

    /// Appends the steps from the root down to this frame.
    fn fill_steps(&self, out: &mut Vec<PathEntry>)
        ensures
            final(out)@ == old(out)@ + self.steps(),
        decreases self,
    {
        match self.parent {
            None => {
                assert(out@ =~= old(out)@ + self.steps());
            },
            Some(p) => {
                p.fill_steps(out);
                out.push(self.to_path_entry());
                assert(out@ =~= old(out)@ + self.steps());
            },
        }
    }

    /// The steps from the root down to this frame, without the step of the
    /// root's own frame, as a path of its own.
    pub fn to_steps(&self) -> (p: Path)
        ensures
            p.path@ == self.steps(),
    {
        let mut out: Vec<PathEntry> = Vec::new();
        self.fill_steps(&mut out);
        assert(out@ =~= self.steps());
        Path { path: out }
    }
}

impl<'a, AN> PathFrameIter<'a, AN> {
    /// The frame that the walk stands at, from which it moves one step
    /// towards the root; `None` once it has passed the root.
    pub fn next(&mut self) -> (r: Option<&'a PathFrame<'a, AN>>)
        ensures
            r == old(self).0,
            final(self).0 == match old(self).0 {
                Some(f) => f.parent,
                None => None,
            },
    {
        let at = self.0;
        self.0 = match at {
            Some(f) => f.parent,
            None => None,
        };
        at
    }
}

} // verus!
