//! Checking a tree out into a directory.
//!
//! The library neither reads the store nor touches the target directory. It
//! decides: `CheckoutState::step` takes what the caller found or did last and
//! returns what to do next. The caller performs each action and reports its
//! outcome, until the action is `Done` or `Fail`.
//!
//! The target is looked at first and created where it is missing. Then the
//! root object is read; a commit leads on to the tree that its `tree` field
//! names. The tree's leaves are handled in stored order: a leaf that names a
//! tree becomes a directory, whose leaves come next; a leaf that names a blob
//! becomes a new file; a leaf that names anything else is passed over. A
//! leaf becomes a directory or a file only where its path is one plain name.
//! The first failure ends the checkout, and nothing is undone.

use vstd::prelude::*;
use vstd::string::StringSliceAdditionalSpecFns;
use crate::bytes::copy_range;
use crate::codec::digest_of_hex;
use crate::codec::Digest;
use crate::error::CheckoutError;
use crate::error::ResolveError;
use crate::error::StoreError;
use crate::text::text_bytes;
use crate::kvlm::byte_strings;
use crate::kvlm::lookup;
use crate::object::ObjectSelect;
use crate::object::ObjectView;
use crate::store::object_find;
use crate::store::object_read;
use crate::store::read_stored;
use crate::tree::plain_segment;
use crate::tree::segment_ok;
use crate::tree::LeafView;
use crate::tree::TreeLeaf;

verus! {

/// A path below the target directory: its segments, outermost first. The
/// empty path is the target itself.
pub type Segments = Vec<Vec<u8>>;

/// What the caller is asked to do.
#[derive(Debug, PartialEq, Eq)]
pub enum CheckoutAction {
    /// Find out whether the target exists, whether it is a directory, and
    /// how many entries it holds.
    InspectTarget,
    /// Create the directory at this path.
    CreateDir(Segments),
    /// Read the file that stores the object with this key.
    ReadObject(Digest),
    /// Create a file at this path, which must not exist yet, with these
    /// contents.
    CreateFile(Segments, Vec<u8>),
    /// The checkout is complete.
    Done,
    /// The checkout has failed.
    Fail(CheckoutError),
}

/// What the caller found or did.
#[derive(Debug, PartialEq, Eq)]
pub enum CheckoutEvent {
    /// The state of the target. `is_dir` and `entries` count only where the
    /// target exists.
    Target { exists: bool, is_dir: bool, entries: usize },
    /// The bytes of the stored object's file; `None` where there is no such
    /// file.
    Object(Option<Vec<u8>>),
    /// The directory or the file was created.
    Created,
    /// The file system refused.
    Failed,
}

/// What the checkout waits for.
#[derive(Debug, PartialEq, Eq)]
pub enum Phase {
    /// The state of the target.
    Target,
    /// The creation of the target.
    TargetCreated,
    /// The root object.
    Root,
    /// The tree that the root commit names.
    CommitTree,
    /// The object that the current leaf names.
    Leaf,
    /// The creation of the current leaf's directory; holds the leaves that
    /// go into it.
    LeafDir(Vec<TreeLeaf>),
    /// The creation of the current leaf's file.
    LeafFile,
    /// Nothing: the checkout has ended.
    Ended,
}

/// A tree that is being checked out: its leaves, the index of the current
/// leaf, and the directory that the leaves go into.
#[derive(Debug, PartialEq, Eq)]
pub struct Level {
    pub leaves: Vec<TreeLeaf>,
    pub next: usize,
    pub path: Segments,
}

/// The state of a checkout.
#[derive(Debug, PartialEq, Eq)]
pub struct CheckoutState {
    pub phase: Phase,
    /// The key of the root object; `None` where the name is no key.
    pub root: Option<Digest>,
    /// The trees that are open, outermost first.
    pub levels: Vec<Level>,
    /// The most trees that may be open at once.
    pub max_depth: usize,
}

/// What an action holds.
pub ghost enum ActionView {
    InspectTarget,
    CreateDir(Seq<Seq<u8>>),
    ReadObject(Seq<u8>),
    CreateFile(Seq<Seq<u8>>, Seq<u8>),
    Done,
    Fail(CheckoutError),
}

/// What an event holds.
pub ghost enum EventView {
    Target { exists: bool, is_dir: bool, entries: nat },
    Object(Option<Seq<u8>>),
    Created,
    Failed,
}

/// What a phase holds.
pub ghost enum PhaseView {
    Target,
    TargetCreated,
    Root,
    CommitTree,
    Leaf,
    LeafDir(Seq<LeafView>),
    LeafFile,
    Ended,
}

/// What a level holds.
pub ghost struct LevelView {
    pub leaves: Seq<LeafView>,
    pub next: nat,
    pub path: Seq<Seq<u8>>,
}

/// What the state of a checkout holds.
pub ghost struct CheckoutView {
    pub phase: PhaseView,
    pub root: Option<Seq<u8>>,
    pub levels: Seq<LevelView>,
    pub max_depth: nat,
}

/// What the leaves hold.
pub open spec fn leaf_views(leaves: Seq<TreeLeaf>) -> Seq<LeafView> {
    leaves.map_values(|leaf: TreeLeaf| leaf@)
}

impl View for CheckoutAction {
    type V = ActionView;

    open spec fn view(&self) -> ActionView {
        match self {
            CheckoutAction::InspectTarget => ActionView::InspectTarget,
            CheckoutAction::CreateDir(path) => ActionView::CreateDir(byte_strings(path@)),
            CheckoutAction::ReadObject(digest) => ActionView::ReadObject(digest@),
            CheckoutAction::CreateFile(path, data) => ActionView::CreateFile(
                byte_strings(path@),
                data@,
            ),
            CheckoutAction::Done => ActionView::Done,
            CheckoutAction::Fail(e) => ActionView::Fail(*e),
        }
    }
}

impl View for CheckoutEvent {
    type V = EventView;

    open spec fn view(&self) -> EventView {
        match self {
            CheckoutEvent::Target { exists, is_dir, entries } => EventView::Target {
                exists: *exists,
                is_dir: *is_dir,
                entries: *entries as nat,
            },
            CheckoutEvent::Object(Some(bytes)) => EventView::Object(Some(bytes@)),
            CheckoutEvent::Object(None) => EventView::Object(None),
            CheckoutEvent::Created => EventView::Created,
            CheckoutEvent::Failed => EventView::Failed,
        }
    }
}

impl View for Phase {
    type V = PhaseView;

    open spec fn view(&self) -> PhaseView {
        match self {
            Phase::Target => PhaseView::Target,
            Phase::TargetCreated => PhaseView::TargetCreated,
            Phase::Root => PhaseView::Root,
            Phase::CommitTree => PhaseView::CommitTree,
            Phase::Leaf => PhaseView::Leaf,
            Phase::LeafDir(leaves) => PhaseView::LeafDir(leaf_views(leaves@)),
            Phase::LeafFile => PhaseView::LeafFile,
            Phase::Ended => PhaseView::Ended,
        }
    }
}

impl View for Level {
    type V = LevelView;

    open spec fn view(&self) -> LevelView {
        LevelView {
            leaves: leaf_views(self.leaves@),
            next: self.next as nat,
            path: byte_strings(self.path@),
        }
    }
}

impl View for CheckoutState {
    type V = CheckoutView;

    open spec fn view(&self) -> CheckoutView {
        CheckoutView {
            phase: self.phase@,
            root: match self.root {
                Some(digest) => Some(digest@),
                None => None,
            },
            levels: self.levels@.map_values(|level: Level| level@),
            max_depth: self.max_depth as nat,
        }
    }
}

/// The key under which a commit names its tree.
pub open spec fn tree_key() -> Seq<u8> {
    text_bytes("tree"@)
}

/// The key `tree` is the bytes of its name, and is not the key of the
/// message.
proof fn lemma_tree_key()
    ensures
        "tree".spec_bytes() == tree_key(),
        tree_key() != crate::kvlm::message_key(),
{
    reveal_strlit("tree");
    reveal_strlit("message");
    vstd::string::is_ascii_spec_bytes("tree");
    assert(tree_key().len() != crate::kvlm::message_key().len());
}

/// True when no level is past its last leaf.
pub open spec fn levels_wf(levels: Seq<LevelView>) -> bool {
    forall|i: int| 0 <= i < levels.len() ==> (#[trigger] levels[i]).next <= levels[i].leaves.len()
}

/// True for a state that `start` and `step` can have produced: no level is
/// past its last leaf, and while a leaf is being handled there is one.
pub open spec fn checkout_wf(state: CheckoutView) -> bool {
    &&& levels_wf(state.levels)
    &&& (state.phase is Leaf || state.phase is LeafDir || state.phase is LeafFile) ==> {
        &&& state.levels.len() > 0
        &&& state.levels.last().next < state.levels.last().leaves.len()
    }
}

/// The state after the checkout has ended.
pub open spec fn ended(state: CheckoutView) -> CheckoutView {
    CheckoutView { phase: PhaseView::Ended, levels: Seq::empty(), ..state }
}

/// The end of the checkout with the given failure.
pub open spec fn fail(state: CheckoutView, error: CheckoutError) -> (CheckoutView, ActionView) {
    (ended(state), ActionView::Fail(error))
}

/// The levels without the innermost ones that have no leaf left.
pub open spec fn unwind(levels: Seq<LevelView>) -> Seq<LevelView>
    decreases levels.len(),
{
    if levels.len() > 0 && levels.last().next >= levels.last().leaves.len() {
        unwind(levels.drop_last())
    } else {
        levels
    }
}

/// The name of a level's current leaf.
pub open spec fn leaf_name(level: LevelView) -> Seq<u8> {
    level.leaves[level.next as int].path
}

/// The path of a level's current leaf.
pub open spec fn leaf_path(level: LevelView) -> Seq<Seq<u8>> {
    level.path.push(leaf_name(level))
}

/// Goes on with the next leaf that is left in `levels`: reads its object,
/// or ends the checkout where no leaf is left.
pub open spec fn resume(state: CheckoutView, levels: Seq<LevelView>) -> (CheckoutView, ActionView) {
    let open = unwind(levels);
    if open.len() == 0 {
        (ended(state), ActionView::Done)
    } else {
        (
            CheckoutView { phase: PhaseView::Leaf, levels: open, ..state },
            ActionView::ReadObject(open.last().leaves[open.last().next as int].digest),
        )
    }
}

/// The levels with the innermost one moved on to its next leaf.
pub open spec fn advance(levels: Seq<LevelView>) -> Seq<LevelView> {
    levels.drop_last().push(LevelView { next: levels.last().next + 1, ..levels.last() })
}

/// Asks for the root object, or fails where its name is no key.
pub open spec fn read_root(state: CheckoutView) -> (CheckoutView, ActionView) {
    match state.root {
        Some(digest) => (
            CheckoutView { phase: PhaseView::Root, ..state },
            ActionView::ReadObject(digest),
        ),
        None => fail(state, CheckoutError::Store(StoreError::NotFound)),
    }
}

/// Starts on the root tree.
pub open spec fn enter_root(state: CheckoutView, leaves: Seq<LeafView>) -> (
    CheckoutView,
    ActionView,
) {
    if state.max_depth == 0 {
        fail(state, CheckoutError::TooDeep)
    } else {
        resume(state, seq![LevelView { leaves, next: 0, path: Seq::empty() }])
    }
}

/// The step on the state of the target.
pub open spec fn step_target(state: CheckoutView, exists: bool, is_dir: bool, entries: nat) -> (
    CheckoutView,
    ActionView,
) {
    if !exists {
        (
            CheckoutView { phase: PhaseView::TargetCreated, ..state },
            ActionView::CreateDir(Seq::empty()),
        )
    } else if !is_dir {
        fail(state, CheckoutError::TargetNotDirectory)
    } else if entries != 0 {
        fail(state, CheckoutError::TargetNotEmpty)
    } else {
        read_root(state)
    }
}

/// The step on the root object.
pub open spec fn step_root(state: CheckoutView, object: Result<ObjectView, StoreError>) -> (
    CheckoutView,
    ActionView,
) {
    match object {
        Ok(ObjectView::Tree(leaves)) => enter_root(state, leaves),
        Ok(ObjectView::Commit(kvlm)) => match lookup(kvlm, tree_key()) {
            Some(values) => match digest_of_hex(values[0]) {
                Some(digest) => (
                    CheckoutView { phase: PhaseView::CommitTree, ..state },
                    ActionView::ReadObject(digest),
                ),
                None => fail(state, CheckoutError::NotATree),
            },
            None => fail(state, CheckoutError::NoTreeField),
        },
        Ok(_) => fail(state, CheckoutError::NotATree),
        Err(e) => fail(state, CheckoutError::Store(e)),
    }
}

/// The step on the object that the root commit names as its tree.
pub open spec fn step_commit_tree(state: CheckoutView, object: Result<ObjectView, StoreError>) -> (
    CheckoutView,
    ActionView,
) {
    match object {
        Ok(ObjectView::Tree(leaves)) => enter_root(state, leaves),
        Ok(_) => fail(state, CheckoutError::NotATree),
        Err(e) => fail(state, CheckoutError::Store(e)),
    }
}

/// The step on the object that the current leaf names.
pub open spec fn step_leaf(state: CheckoutView, object: Result<ObjectView, StoreError>) -> (
    CheckoutView,
    ActionView,
) {
    match object {
        Ok(ObjectView::Tree(leaves)) => if !plain_segment(leaf_name(state.levels.last())) {
            fail(state, CheckoutError::BadPath)
        } else if state.levels.len() >= state.max_depth {
            fail(state, CheckoutError::TooDeep)
        } else {
            (
                CheckoutView { phase: PhaseView::LeafDir(leaves), ..state },
                ActionView::CreateDir(leaf_path(state.levels.last())),
            )
        },
        Ok(ObjectView::Blob(data)) => if !plain_segment(leaf_name(state.levels.last())) {
            fail(state, CheckoutError::BadPath)
        } else {
            (
                CheckoutView { phase: PhaseView::LeafFile, ..state },
                ActionView::CreateFile(leaf_path(state.levels.last()), data),
            )
        },
        Ok(_) => resume(state, advance(state.levels)),
        Err(e) => fail(state, CheckoutError::Store(e)),
    }
}

/// The step after the current leaf's directory was created: the leaves of
/// its tree come before the leaves that follow it.
pub open spec fn step_leaf_dir(state: CheckoutView, leaves: Seq<LeafView>) -> (
    CheckoutView,
    ActionView,
) {
    resume(
        state,
        advance(state.levels).push(
            LevelView { leaves, next: 0, path: leaf_path(state.levels.last()) },
        ),
    )
}

/// What a checkout in a given state does on a given event, and the state
/// that it is in afterwards. An event that the state does not wait for ends
/// the checkout with `Io`.
pub open spec fn step_spec(state: CheckoutView, event: EventView) -> (CheckoutView, ActionView) {
    match (state.phase, event) {
        (PhaseView::Target, EventView::Target { exists, is_dir, entries }) => step_target(
            state,
            exists,
            is_dir,
            entries,
        ),
        (PhaseView::TargetCreated, EventView::Created) => read_root(state),
        (PhaseView::Root, EventView::Object(stored)) => step_root(state, read_stored(stored)),
        (PhaseView::CommitTree, EventView::Object(stored)) => step_commit_tree(
            state,
            read_stored(stored),
        ),
        (PhaseView::Leaf, EventView::Object(stored)) => step_leaf(state, read_stored(stored)),
        (PhaseView::LeafDir(leaves), EventView::Created) => step_leaf_dir(state, leaves),
        (PhaseView::LeafFile, EventView::Created) => resume(state, advance(state.levels)),
        _ => fail(state, CheckoutError::Io),
    }
}

/// The state in which a checkout of the object with the given name starts.
pub open spec fn start_spec(root: Seq<u8>, max_depth: nat) -> CheckoutView {
    CheckoutView {
        phase: PhaseView::Target,
        root: digest_of_hex(root),
        levels: Seq::empty(),
        max_depth,
    }
}

/// A checkout into a target that exists and holds entries fails with
/// `TargetNotEmpty` at its first step, before anything is created; one into
/// a target that is no directory fails with `TargetNotDirectory`; one into a
/// missing target creates it first.
pub proof fn lemma_target_validation(root: Seq<u8>, max_depth: nat, is_dir: bool, entries: nat)
    ensures
        entries != 0 ==> step_spec(
            start_spec(root, max_depth),
            EventView::Target { exists: true, is_dir: true, entries },
        ).1 == ActionView::Fail(CheckoutError::TargetNotEmpty),
        step_spec(
            start_spec(root, max_depth),
            EventView::Target { exists: true, is_dir: false, entries },
        ).1 == ActionView::Fail(CheckoutError::TargetNotDirectory),
        step_spec(
            start_spec(root, max_depth),
            EventView::Target { exists: false, is_dir, entries },
        ).1 == ActionView::CreateDir(Seq::empty()),
{
}

/// Where the file system refuses to create the target, a directory or a
/// file, the checkout ends with `Io`.
pub proof fn lemma_refusal(state: CheckoutView)
    requires
        state.phase is TargetCreated || state.phase is LeafDir || state.phase is LeafFile,
    ensures
        step_spec(state, EventView::Failed) == fail(state, CheckoutError::Io),
{
}

/// A step keeps the state well formed.
pub proof fn lemma_step_wf(state: CheckoutView, event: EventView)
    requires
        checkout_wf(state),
    ensures
        checkout_wf(step_spec(state, event).0),
{
    let next = step_spec(state, event).0;
    match (state.phase, event) {
        (PhaseView::Root, EventView::Object(stored)) => {
            if let Ok(ObjectView::Tree(leaves)) = read_stored(stored) {
                lemma_unwind(seq![LevelView { leaves, next: 0, path: Seq::empty() }]);
            }
        },
        (PhaseView::CommitTree, EventView::Object(stored)) => {
            if let Ok(ObjectView::Tree(leaves)) = read_stored(stored) {
                lemma_unwind(seq![LevelView { leaves, next: 0, path: Seq::empty() }]);
            }
        },
        (PhaseView::Leaf, EventView::Object(stored)) => {
            lemma_unwind(advance(state.levels));
        },
        (PhaseView::LeafDir(leaves), EventView::Created) => {
            lemma_unwind(
                advance(state.levels).push(
                    LevelView { leaves, next: 0, path: leaf_path(state.levels.last()) },
                ),
            );
        },
        (PhaseView::LeafFile, EventView::Created) => {
            lemma_unwind(advance(state.levels));
        },
        _ => {},
    }
}

/// Unwinding keeps a prefix of the levels, whose innermost level has a leaf
/// left.
proof fn lemma_unwind(levels: Seq<LevelView>)
    requires
        levels_wf(levels),
    ensures
        unwind(levels).len() <= levels.len(),
        unwind(levels) == levels.subrange(0, unwind(levels).len() as int),
        unwind(levels).len() > 0 ==> unwind(levels).last().next < unwind(levels).last().leaves.len(),
        levels_wf(unwind(levels)),
    decreases levels.len(),
{
    if levels.len() > 0 && levels.last().next >= levels.last().leaves.len() {
        let rest = levels.drop_last();
        assert(levels_wf(rest)) by {
            assert forall|i: int| 0 <= i < rest.len() implies (#[trigger] rest[i]).next
                <= rest[i].leaves.len() by {
                assert(rest[i] == levels[i]);
            }
        }
        lemma_unwind(rest);
        assert(unwind(levels) =~= levels.subrange(0, unwind(levels).len() as int));
    } else {
        assert(unwind(levels) =~= levels.subrange(0, unwind(levels).len() as int));
    }
}

/// What was read, or the error of the reading.
pub open spec fn read_view(object: Result<ObjectSelect, StoreError>) -> Result<
    ObjectView,
    StoreError,
> {
    match object {
        Ok(o) => Ok(o@),
        Err(e) => Err(e),
    }
}

/// A copy of a path.
fn copy_segments(path: &Segments) -> (copy: Segments)
    ensures
        byte_strings(copy@) == byte_strings(path@),
{
    let mut copy: Segments = Vec::new();
    let mut i: usize = 0;
    while i < path.len()
        invariant
            i <= path@.len(),
            copy@.len() == i,
            forall|j: int| 0 <= j < i ==> copy@[j]@ == path@[j]@,
        decreases path@.len() - i,
    {
        let segment = copy_range(path[i].as_slice(), 0, path[i].len());
        assert(segment@ =~= path@[i as int]@);
        copy.push(segment);
        i += 1;
    }
    assert(byte_strings(copy@) =~= byte_strings(path@));
    copy
}

impl Level {
    /// Tells whether the name of the level's current leaf is one plain
    /// name.
    fn leaf_is_plain(&self) -> (ok: bool)
        requires
            self.next < self.leaves@.len(),
        ensures
            ok == plain_segment(leaf_name(self@)),
    {
        segment_ok(self.leaves[self.next].path.as_slice())
    }

    /// The path of the level's current leaf.
    fn leaf_path(&self) -> (path: Segments)
        requires
            self.next < self.leaves@.len(),
        ensures
            byte_strings(path@) == leaf_path(self@),
    {
        let mut path = copy_segments(&self.path);
        let leaf = &self.leaves[self.next];
        let segment = copy_range(leaf.path.as_slice(), 0, leaf.path.len());
        assert(segment@ =~= leaf.path@);
        let ghost before = byte_strings(path@);
        path.push(segment);
        assert(byte_strings(path@) =~= before.push(leaf.path@));
        path
    }
}

impl CheckoutState {
    /// True for a state that `start` and `step` can have produced.
    pub open spec fn wf(&self) -> bool {
        checkout_wf(self@)
    }

    /// Starts a checkout of the object named `root`, with at most
    /// `max_depth` trees open at once. The first action is to look at the
    /// target.
    pub fn start(root: &str, max_depth: usize) -> (r: (CheckoutState, CheckoutAction))
        ensures
            r.0@ == start_spec(root.spec_bytes(), max_depth as nat),
            r.0.wf(),
            r.1@ == ActionView::InspectTarget,
    {
        let name = match object_find(root, None, true) {
            Ok(name) => name,
            Err(_) => root,
        };
        let state = CheckoutState {
            phase: Phase::Target,
            root: Digest::from_hex(name),
            levels: Vec::new(),
            max_depth,
        };
        assert(state@.levels =~= Seq::<LevelView>::empty());
        (state, CheckoutAction::InspectTarget)
    }

    /// Ends the checkout.
    fn end(&mut self, action: CheckoutAction) -> (r: CheckoutAction)
        ensures
            final(self)@ == ended(old(self)@),
            final(self).wf(),
            r == action,
    {
        self.phase = Phase::Ended;
        self.levels = Vec::new();
        assert(self@.levels =~= Seq::<LevelView>::empty());
        action
    }

    /// Moves the innermost level on to its next leaf.
    fn advance(&mut self)
        requires
            old(self)@.levels.len() > 0,
            old(self)@.levels.last().next < old(self)@.levels.last().leaves.len(),
        ensures
            final(self)@ == (CheckoutView { levels: advance(old(self)@.levels), ..old(self)@ }),
    {
        let ghost before = self@.levels;
        match self.levels.pop() {
            Some(level) => {
                assert(level@ == before.last());
                // `next` is below the number of leaves, a `usize`: adding one is safe.
                let count = level.leaves.len();
                assert(level.next < count);
                let moved = Level { leaves: level.leaves, next: level.next + 1, path: level.path };
                self.levels.push(moved);
                assert(self@.levels =~= advance(before));
            },
            None => {},
        }
    }

    /// Goes on with the next leaf that is left.
    fn resume(&mut self) -> (action: CheckoutAction)
        requires
            levels_wf(old(self)@.levels),
        ensures
            final(self)@ == resume(old(self)@, old(self)@.levels).0,
            action@ == resume(old(self)@, old(self)@.levels).1,
            final(self).wf(),
    {
        let ghost start = self@;
        proof {
            lemma_unwind(start.levels);
        }
        loop
            invariant
                start == old(self)@,
                self@ == (CheckoutView { levels: self@.levels, ..start }),
                unwind(self@.levels) == unwind(start.levels),
                levels_wf(self@.levels),
            decreases self.levels@.len(),
        {
            let open = self.levels.len();
            let ghost before = self@.levels;
            if open == 0 {
                assert(unwind(before).len() == 0);
                return self.end(CheckoutAction::Done);
            }
            assert(before.last() == self.levels@[open - 1]@);
            if self.levels[open - 1].next < self.levels[open - 1].leaves.len() {
                let top = &self.levels[open - 1];
                let digest = top.leaves[top.next].digest;
                proof {
                    assert(unwind(before) == before);
                    assert(before.last().leaves[top.next as int] == top.leaves@[top.next as int]@);
                }
                self.phase = Phase::Leaf;
                return CheckoutAction::ReadObject(digest);
            }
            self.levels.pop();
            proof {
                assert(self@.levels =~= before.drop_last());
            }
        }
    }

    /// Fails the checkout.
    fn fail(&mut self, error: CheckoutError) -> (action: CheckoutAction)
        ensures
            final(self)@ == fail(old(self)@, error).0,
            action@ == fail(old(self)@, error).1,
            final(self).wf(),
    {
        self.end(CheckoutAction::Fail(error))
    }

    /// Asks for the root object.
    fn read_root(&mut self) -> (action: CheckoutAction)
        requires
            levels_wf(old(self)@.levels),
        ensures
            final(self)@ == read_root(old(self)@).0,
            action@ == read_root(old(self)@).1,
            final(self).wf(),
    {
        match self.root {
            Some(digest) => {
                self.phase = Phase::Root;
                CheckoutAction::ReadObject(digest)
            },
            None => self.fail(CheckoutError::Store(StoreError::NotFound)),
        }
    }

    /// Starts on the root tree.
    fn enter_root(&mut self, leaves: Vec<TreeLeaf>) -> (action: CheckoutAction)
        ensures
            final(self)@ == enter_root(old(self)@, leaf_views(leaves@)).0,
            action@ == enter_root(old(self)@, leaf_views(leaves@)).1,
            final(self).wf(),
    {
        if self.max_depth == 0 {
            return self.fail(CheckoutError::TooDeep);
        }
        let mut levels: Vec<Level> = Vec::new();
        levels.push(Level { leaves, next: 0, path: Vec::new() });
        self.levels = levels;
        proof {
            assert(byte_strings(Seq::<Vec<u8>>::empty()) =~= Seq::<Seq<u8>>::empty());
            assert(self@.levels =~= seq![
                LevelView { leaves: leaf_views(leaves@), next: 0, path: Seq::empty() },
            ]);
        }
        self.resume_from(Ghost(old(self)@))
    }

    /// Goes on with the next leaf that is left, for a step that began in
    /// the state `origin` and has changed the levels alone since.
    fn resume_from(&mut self, Ghost(origin): Ghost<CheckoutView>) -> (action: CheckoutAction)
        requires
            old(self)@.root == origin.root,
            old(self)@.max_depth == origin.max_depth,
            levels_wf(old(self)@.levels),
        ensures
            final(self)@ == resume(origin, old(self)@.levels).0,
            action@ == resume(origin, old(self)@.levels).1,
            final(self).wf(),
    {
        self.resume()
    }

    /// Takes the outcome of the last action and returns the next one.
    pub fn step(&mut self, event: CheckoutEvent) -> (action: CheckoutAction)
        requires
            old(self).wf(),
        ensures
            final(self)@ == step_spec(old(self)@, event@).0,
            action@ == step_spec(old(self)@, event@).1,
            final(self).wf(),
    {
        let mut phase = Phase::Ended;
        core::mem::swap(&mut self.phase, &mut phase);
        let ghost origin = old(self)@;
        assert(self@ == (CheckoutView { phase: PhaseView::Ended, ..origin }));
        assert(phase@ == origin.phase);
        match (phase, event) {
            (Phase::Target, CheckoutEvent::Target { exists, is_dir, entries }) => {
                if !exists {
                    self.phase = Phase::TargetCreated;
                    let target: Segments = Vec::new();
                    assert(byte_strings(target@) =~= Seq::<Seq<u8>>::empty());
                    CheckoutAction::CreateDir(target)
                } else if !is_dir {
                    self.fail(CheckoutError::TargetNotDirectory)
                } else if entries != 0 {
                    self.fail(CheckoutError::TargetNotEmpty)
                } else {
                    self.read_root()
                }
            },
            (Phase::TargetCreated, CheckoutEvent::Created) => self.read_root(),
            (Phase::Root, CheckoutEvent::Object(stored)) => {
                let object = match &stored {
                    Some(bytes) => object_read(Some(bytes.as_slice())),
                    None => object_read(None),
                };
                self.step_root(object, Ghost(origin))
            },
            (Phase::CommitTree, CheckoutEvent::Object(stored)) => {
                let object = match &stored {
                    Some(bytes) => object_read(Some(bytes.as_slice())),
                    None => object_read(None),
                };
                match object {
                    Ok(ObjectSelect::Tree(tree)) => self.enter_root(tree.leaves),
                    Ok(_) => self.fail(CheckoutError::NotATree),
                    Err(e) => self.fail(CheckoutError::Store(e)),
                }
            },
            (Phase::Leaf, CheckoutEvent::Object(stored)) => {
                let object = match &stored {
                    Some(bytes) => object_read(Some(bytes.as_slice())),
                    None => object_read(None),
                };
                self.step_leaf(object, Ghost(origin))
            },
            (Phase::LeafDir(leaves), CheckoutEvent::Created) => {
                let open = self.levels.len();
                let path = self.levels[open - 1].leaf_path();
                self.advance();
                let ghost before = self@.levels;
                self.levels.push(Level { leaves, next: 0, path });
                proof {
                    assert(self@.levels =~= before.push(
                        LevelView {
                            leaves: leaf_views(leaves@),
                            next: 0,
                            path: leaf_path(origin.levels.last()),
                        },
                    ));
                }
                self.resume_from(Ghost(origin))
            },
            (Phase::LeafFile, CheckoutEvent::Created) => {
                self.advance();
                self.resume_from(Ghost(origin))
            },
            _ => self.fail(CheckoutError::Io),
        }
    }

    /// The step on the root object.
    fn step_root(
        &mut self,
        object: Result<ObjectSelect, StoreError>,
        Ghost(origin): Ghost<CheckoutView>,
    ) -> (action: CheckoutAction)
        requires
            old(self)@ == (CheckoutView { phase: PhaseView::Ended, ..origin }),
            origin.phase is Root,
            levels_wf(origin.levels),
        ensures
            final(self)@ == step_root(origin, read_view(object)).0,
            action@ == step_root(origin, read_view(object)).1,
            final(self).wf(),
    {
        match object {
            Ok(ObjectSelect::Tree(tree)) => self.enter_root(tree.leaves),
            Ok(ObjectSelect::Commit(commit)) => match commit.get("tree") {
                Some(values) => {
                    proof {
                        lemma_tree_key();
                        assert(byte_strings(values@).len() > 0);
                        assert(byte_strings(values@)[0] == values@[0]@);
                    }
                    match Digest::from_hex_bytes(values[0].as_slice()) {
                        Some(digest) => {
                            self.phase = Phase::CommitTree;
                            CheckoutAction::ReadObject(digest)
                        },
                        None => self.fail(CheckoutError::NotATree),
                    }
                },
                None => {
                    proof {
                        lemma_tree_key();
                    }
                    self.fail(CheckoutError::NoTreeField)
                },
            },
            Ok(_) => self.fail(CheckoutError::NotATree),
            Err(e) => self.fail(CheckoutError::Store(e)),
        }
    }

    /// The step on the object that the current leaf names.
    fn step_leaf(
        &mut self,
        object: Result<ObjectSelect, StoreError>,
        Ghost(origin): Ghost<CheckoutView>,
    ) -> (action: CheckoutAction)
        requires
            old(self)@ == (CheckoutView { phase: PhaseView::Ended, ..origin }),
            origin.phase is Leaf,
            checkout_wf(origin),
        ensures
            final(self)@ == step_leaf(origin, read_view(object)).0,
            action@ == step_leaf(origin, read_view(object)).1,
            final(self).wf(),
    {
        let open = self.levels.len();
        match object {
            Ok(ObjectSelect::Tree(tree)) => {
                if !self.levels[open - 1].leaf_is_plain() {
                    self.fail(CheckoutError::BadPath)
                } else if open >= self.max_depth {
                    self.fail(CheckoutError::TooDeep)
                } else {
                    let path = self.levels[open - 1].leaf_path();
                    self.phase = Phase::LeafDir(tree.leaves);
                    CheckoutAction::CreateDir(path)
                }
            },
            Ok(ObjectSelect::Blob(blob)) => {
                if !self.levels[open - 1].leaf_is_plain() {
                    self.fail(CheckoutError::BadPath)
                } else {
                    let path = self.levels[open - 1].leaf_path();
                    self.phase = Phase::LeafFile;
                    CheckoutAction::CreateFile(path, blob.data)
                }
            },
            Ok(_) => {
                self.advance();
                self.resume_from(Ghost(origin))
            },
            Err(e) => self.fail(CheckoutError::Store(e)),
        }
    }
}

} // verus!
