//! What a checkout creates.
//!
//! `checkout_outcome` says, for a store and a target, which directories and
//! files a checkout creates, in which order, and how it ends. It walks the
//! tree as a recursive function would. `run` is the checkout as it really
//! proceeds: `step_spec` applied over and over, each action answered from the
//! store, the target and a file system that grants a number of creations and
//! refuses the rest. `lemma_checkout` shows that the two agree: the run makes
//! what `checkout_outcome` says, cut short at the first refusal.

use vstd::prelude::*;
use crate::checkout::advance;
use crate::checkout::ended;
use crate::checkout::leaf_path;
use crate::checkout::resume;
use crate::checkout::start_spec;
use crate::checkout::step_spec;
use crate::checkout::tree_key;
use crate::checkout::unwind;
use crate::checkout::ActionView;
use crate::checkout::CheckoutView;
use crate::checkout::EventView;
use crate::checkout::LevelView;
use crate::checkout::PhaseView;
use crate::codec::digest_of_hex;
use crate::error::CheckoutError;
use crate::error::StoreError;
use crate::kvlm::lookup;
use crate::object::ObjectView;
use crate::store::read_stored;
use crate::tree::plain_segment;
use crate::tree::LeafView;

verus! {

/// A directory or a file that a checkout creates, by its path below the
/// target.
pub ghost enum Made {
    Dir(Seq<Seq<u8>>),
    File(Seq<Seq<u8>>, Seq<u8>),
}

/// What a checkout, or a part of one, creates, and the error that ends it,
/// if one does.
pub ghost struct Outcome {
    pub made: Seq<Made>,
    pub error: Option<CheckoutError>,
}

/// The state of the target before the checkout.
pub ghost struct TargetView {
    pub exists: bool,
    pub is_dir: bool,
    pub entries: nat,
}

/// The outcome that creates nothing and does not fail.
pub open spec fn nothing() -> Outcome {
    Outcome { made: Seq::empty(), error: None }
}

/// The outcome that creates one thing.
pub open spec fn made(one: Made) -> Outcome {
    Outcome { made: seq![one], error: None }
}

/// The outcome that fails at once.
pub open spec fn failed(error: CheckoutError) -> Outcome {
    Outcome { made: Seq::empty(), error: Some(error) }
}

/// `first`, and after it `rest` unless `first` failed.
pub open spec fn then(first: Outcome, rest: Outcome) -> Outcome {
    if first.error is Some {
        first
    } else {
        Outcome { made: first.made + rest.made, error: rest.error }
    }
}

/// The object stored under a key.
pub open spec fn fetch(objects: Map<Seq<u8>, Seq<u8>>, key: Seq<u8>) -> Result<
    ObjectView,
    StoreError,
> {
    read_stored(
        if objects.contains_key(key) {
            Some(objects[key])
        } else {
            None
        },
    )
}

/// What checking out the given leaves into the directory `dir` creates,
/// where `depth` more trees may be opened below this one. The leaves are
/// taken in order. A leaf that names a tree makes a directory and then what
/// that tree's leaves make; a leaf that names a blob makes a file; a leaf
/// that names a commit or a tag makes nothing. A leaf whose path is not one
/// plain name makes neither a directory nor a file: it fails the walk. The
/// first failure ends the walk.
pub open spec fn walk_leaves(
    objects: Map<Seq<u8>, Seq<u8>>,
    leaves: Seq<LeafView>,
    dir: Seq<Seq<u8>>,
    depth: nat,
) -> Outcome
    decreases depth, leaves.len(),
{
    if leaves.len() == 0 {
        nothing()
    } else {
        let path = dir.push(leaves[0].path);
        let first = match fetch(objects, leaves[0].digest) {
            Ok(ObjectView::Tree(inner)) => if !plain_segment(leaves[0].path) {
                failed(CheckoutError::BadPath)
            } else if depth == 0 {
                failed(CheckoutError::TooDeep)
            } else {
                then(made(Made::Dir(path)), walk_leaves(objects, inner, path, (depth - 1) as nat))
            },
            Ok(ObjectView::Blob(data)) => if !plain_segment(leaves[0].path) {
                failed(CheckoutError::BadPath)
            } else {
                made(Made::File(path, data))
            },
            Ok(_) => nothing(),
            Err(e) => failed(CheckoutError::Store(e)),
        };
        then(first, walk_leaves(objects, leaves.drop_first(), dir, depth))
    }
}

/// The leaves of the tree to check out: those of the root object where it
/// is a tree, and those of the tree that its first `tree` field names where
/// it is a commit.
pub open spec fn resolve_tree(objects: Map<Seq<u8>, Seq<u8>>, root: Option<Seq<u8>>) -> Result<
    Seq<LeafView>,
    CheckoutError,
> {
    match root {
        Some(key) => match fetch(objects, key) {
            Ok(ObjectView::Tree(leaves)) => Ok(leaves),
            Ok(ObjectView::Commit(kvlm)) => match lookup(kvlm, tree_key()) {
                Some(values) => match digest_of_hex(values[0]) {
                    Some(named) => match fetch(objects, named) {
                        Ok(ObjectView::Tree(leaves)) => Ok(leaves),
                        Ok(_) => Err(CheckoutError::NotATree),
                        Err(e) => Err(CheckoutError::Store(e)),
                    },
                    None => Err(CheckoutError::NotATree),
                },
                None => Err(CheckoutError::NoTreeField),
            },
            Ok(_) => Err(CheckoutError::NotATree),
            Err(e) => Err(CheckoutError::Store(e)),
        },
        None => Err(CheckoutError::Store(StoreError::NotFound)),
    }
}

/// What checking out the root object into a target that is ready creates.
pub open spec fn walk_root(
    objects: Map<Seq<u8>, Seq<u8>>,
    root: Option<Seq<u8>>,
    max_depth: nat,
) -> Outcome {
    match resolve_tree(objects, root) {
        Ok(leaves) => if max_depth == 0 {
            failed(CheckoutError::TooDeep)
        } else {
            walk_leaves(objects, leaves, Seq::empty(), (max_depth - 1) as nat)
        },
        Err(e) => failed(e),
    }
}

/// What a checkout creates and how it ends. A target that is no directory,
/// or that holds entries, fails the checkout before anything is read or
/// created. A target that does not exist is created first.
pub open spec fn checkout_outcome(
    objects: Map<Seq<u8>, Seq<u8>>,
    target: TargetView,
    root: Option<Seq<u8>>,
    max_depth: nat,
) -> Outcome {
    if !target.exists {
        then(made(Made::Dir(Seq::empty())), walk_root(objects, root, max_depth))
    } else if !target.is_dir {
        failed(CheckoutError::TargetNotDirectory)
    } else if target.entries != 0 {
        failed(CheckoutError::TargetNotEmpty)
    } else {
        walk_root(objects, root, max_depth)
    }
}

/// True for the actions that create a directory or a file.
pub open spec fn creates(action: ActionView) -> bool {
    action is CreateDir || action is CreateFile
}

/// The answer to an action from a store, a target and a file system.
/// `grants` is the number of creations that the file system still grants
/// before it refuses every further one; `None` stands for a file system
/// that never refuses.
pub open spec fn answer(
    objects: Map<Seq<u8>, Seq<u8>>,
    target: TargetView,
    grants: Option<nat>,
    action: ActionView,
) -> EventView {
    match action {
        ActionView::InspectTarget => EventView::Target {
            exists: target.exists,
            is_dir: target.is_dir,
            entries: target.entries,
        },
        ActionView::ReadObject(key) => EventView::Object(
            if objects.contains_key(key) {
                Some(objects[key])
            } else {
                None
            },
        ),
        _ => if grants == Some(0nat) {
            EventView::Failed
        } else {
            EventView::Created
        },
    }
}

/// What performing an action creates.
pub open spec fn made_by(grants: Option<nat>, action: ActionView) -> Outcome {
    match action {
        ActionView::CreateDir(path) => if grants == Some(0nat) {
            nothing()
        } else {
            made(Made::Dir(path))
        },
        ActionView::CreateFile(path, data) => if grants == Some(0nat) {
            nothing()
        } else {
            made(Made::File(path, data))
        },
        _ => nothing(),
    }
}

/// The creations that the file system still grants after an action.
pub open spec fn grants_after(grants: Option<nat>, action: ActionView) -> Option<nat> {
    match grants {
        Some(left) => if creates(action) && left > 0 {
            Some((left - 1) as nat)
        } else {
            grants
        },
        None => None,
    }
}

/// `first`, and after it the outcome of the rest of a run, unless `first`
/// failed.
pub open spec fn followed_by(first: Outcome, rest: Option<Outcome>) -> Option<Outcome> {
    if first.error is Some {
        Some(first)
    } else {
        match rest {
            Some(outcome) => Some(then(first, outcome)),
            None => None,
        }
    }
}

/// The outcome of performing `action` and every action that follows it,
/// within `fuel` steps; `None` where the checkout has not ended by then.
pub open spec fn run(
    objects: Map<Seq<u8>, Seq<u8>>,
    target: TargetView,
    grants: Option<nat>,
    state: CheckoutView,
    action: ActionView,
    fuel: nat,
) -> Option<Outcome>
    decreases fuel,
{
    match action {
        ActionView::Done => Some(nothing()),
        ActionView::Fail(e) => Some(failed(e)),
        _ => if fuel == 0 {
            None
        } else {
            let next = step_spec(state, answer(objects, target, grants, action));
            followed_by(
                made_by(grants, action),
                run(
                    objects,
                    target,
                    grants_after(grants, action),
                    next.0,
                    next.1,
                    (fuel - 1) as nat,
                ),
            )
        },
    }
}

/// An outcome cut short by a file system that grants `grants` creations:
/// where the outcome makes more than that, the first `grants` of what it
/// makes, and the failure `Io`.
pub open spec fn cut(outcome: Outcome, grants: Option<nat>) -> Outcome {
    match grants {
        Some(left) => if left < outcome.made.len() {
            Outcome { made: outcome.made.take(left as int), error: Some(CheckoutError::Io) }
        } else {
            outcome
        },
        None => outcome,
    }
}

/// The steps that a walk takes at most.
pub open spec fn walk_steps(objects: Map<Seq<u8>, Seq<u8>>, leaves: Seq<LeafView>, depth: nat) -> nat
    decreases depth, leaves.len(),
{
    if leaves.len() == 0 {
        0
    } else {
        let first: nat = match fetch(objects, leaves[0].digest) {
            Ok(ObjectView::Tree(inner)) => if depth == 0 {
                1
            } else {
                2 + walk_steps(objects, inner, (depth - 1) as nat)
            },
            Ok(ObjectView::Blob(_)) => 2,
            _ => 1,
        };
        first + walk_steps(objects, leaves.drop_first(), depth)
    }
}

/// The steps that a checkout takes at most.
pub open spec fn checkout_steps(
    objects: Map<Seq<u8>, Seq<u8>>,
    root: Option<Seq<u8>>,
    max_depth: nat,
) -> nat {
    match resolve_tree(objects, root) {
        Ok(leaves) => if max_depth == 0 {
            4
        } else {
            4 + walk_steps(objects, leaves, (max_depth - 1) as nat)
        },
        Err(_) => 4,
    }
}

/// Putting outcomes one after another is associative.
proof fn lemma_then_assoc(a: Outcome, b: Outcome, c: Outcome)
    ensures
        then(then(a, b), c) == then(a, then(b, c)),
{
    assert(then(then(a, b), c).made =~= then(a, then(b, c)).made);
}

/// `nothing` before or after an outcome leaves the outcome as it is.
proof fn lemma_then_nothing(a: Outcome)
    ensures
        then(nothing(), a) == a,
        then(a, nothing()) == a,
{
    assert(then(nothing(), a).made =~= a.made);
    assert(then(a, nothing()).made =~= a.made);
}

/// The same for the rest of a run.
proof fn lemma_followed_by(a: Outcome, b: Outcome, rest: Option<Outcome>)
    ensures
        followed_by(then(a, b), rest) == followed_by(a, followed_by(b, rest)),
        followed_by(nothing(), rest) == rest,
{
    match rest {
        Some(c) => {
            lemma_then_assoc(a, b, c);
            lemma_then_nothing(c);
        },
        None => {},
    }
}

/// A run that has ended within some number of steps has ended, with the
/// same outcome, within any larger number.
pub proof fn lemma_run_longer(
    objects: Map<Seq<u8>, Seq<u8>>,
    target: TargetView,
    state: CheckoutView,
    action: ActionView,
    fuel: nat,
    more: nat,
)
    requires
        run(objects, target, None, state, action, fuel) is Some,
    ensures
        run(objects, target, None, state, action, fuel + more) == run(
            objects,
            target, None, state,
            action,
            fuel,
        ),
    decreases fuel,
{
    match action {
        ActionView::Done => {},
        ActionView::Fail(_) => {},
        _ => {
            let next = step_spec(state, answer(objects, target, None, action));
            if made_by(None, action).error is None {
                lemma_run_longer(objects, target, next.0, next.1, (fuel - 1) as nat, more);
            }
        },
    }
}

/// Going on with the leaves that are left at the innermost level makes what
/// the walk of those leaves makes, and then what going on with the levels
/// below it makes.
proof fn lemma_walk_level(
    objects: Map<Seq<u8>, Seq<u8>>,
    target: TargetView,
    state: CheckoutView,
    below: Seq<LevelView>,
    top: LevelView,
    spare: nat,
)
    requires
        top.next <= top.leaves.len(),
        below.len() + 1 <= state.max_depth,
    ensures
        ({
            let depth = (state.max_depth - below.len() - 1) as nat;
            let left = top.leaves.skip(top.next as int);
            let here = resume(state, below.push(top));
            let after = resume(state, below);
            run(objects, target, None, here.0, here.1, walk_steps(objects, left, depth) + spare)
                == followed_by(
                walk_leaves(objects, left, top.path, depth),
                run(objects, target, None, after.0, after.1, spare),
            )
        }),
    decreases state.max_depth - below.len(), top.leaves.len() - top.next,
{
    let depth = (state.max_depth - below.len() - 1) as nat;
    let left = top.leaves.skip(top.next as int);
    let levels = below.push(top);
    let here = resume(state, levels);
    let after = resume(state, below);
    let rest_run = run(objects, target, None, after.0, after.1, spare);
    assert(levels.last() == top);
    assert(levels.drop_last() =~= below);
    if top.next >= top.leaves.len() {
        assert(unwind(levels) == unwind(below));
        assert(left.len() == 0);
        lemma_followed_by(nothing(), nothing(), rest_run);
    } else {
        assert(unwind(levels) == levels);
        let leaf = top.leaves[top.next as int];
        assert(left[0] == leaf);
        let others = left.drop_first();
        let moved = LevelView { next: top.next + 1, ..top };
        assert(others =~= moved.leaves.skip(moved.next as int));
        assert(advance(levels) =~= below.push(moved));
        let path = top.path.push(leaf.path);
        assert(leaf_path(top) == path);
        let reading = CheckoutView { phase: PhaseView::Leaf, levels, ..state };
        assert(here.0 == reading);
        assert(here.1 == ActionView::ReadObject(leaf.digest));
        let object = fetch(objects, leaf.digest);
        let others_steps = walk_steps(objects, others, depth);
        let others_walk = walk_leaves(objects, others, top.path, depth);
        let on = resume(state, below.push(moved));
        let on_run = run(objects, target, None, on.0, on.1, others_steps + spare);
        // What going on with the leaves after this one makes.
        lemma_walk_level(objects, target, state, below, moved, spare);
        assert(on_run == followed_by(others_walk, rest_run));
        let fuel = walk_steps(objects, left, depth) + spare;
        let stepped = step_spec(reading, answer(objects, target, None, here.1));
        assert(run(objects, target, None, here.0, here.1, fuel) == followed_by(
            nothing(),
            run(objects, target, None, stepped.0, stepped.1, (fuel - 1) as nat),
        ));
        lemma_followed_by(
            nothing(),
            nothing(),
            run(objects, target, None, stepped.0, stepped.1, (fuel - 1) as nat),
        );
        match object {
            Ok(ObjectView::Tree(inner)) => {
                if !plain_segment(leaf.path) {
                    assert(stepped.1 == ActionView::Fail(CheckoutError::BadPath));
                } else if depth == 0 {
                    assert(stepped.1 == ActionView::Fail(CheckoutError::TooDeep));
                } else {
                    let waiting = CheckoutView { phase: PhaseView::LeafDir(inner), ..reading };
                    assert(stepped.0 == waiting);
                    assert(stepped.1 == ActionView::CreateDir(path));
                    let opened = LevelView { leaves: inner, next: 0, path };
                    let entered = step_spec(waiting, answer(objects, target, None, stepped.1));
                    assert(entered == resume(state, below.push(moved).push(opened)));
                    let inner_steps = walk_steps(objects, inner, (depth - 1) as nat);
                    assert(inner.skip(0) =~= inner);
                    lemma_walk_level(
                        objects,
                        target,
                        state,
                        below.push(moved),
                        opened,
                        others_steps + spare,
                    );
                    let inner_walk = walk_leaves(objects, inner, path, (depth - 1) as nat);
                    assert((fuel - 2) as nat == inner_steps + (others_steps + spare));
                    assert(run(objects, target, None, entered.0, entered.1, (fuel - 2) as nat)
                        == followed_by(inner_walk, on_run));
                    assert(run(objects, target, None, stepped.0, stepped.1, (fuel - 1) as nat)
                        == followed_by(
                        made(Made::Dir(path)),
                        run(objects, target, None, entered.0, entered.1, (fuel - 2) as nat),
                    ));
                    lemma_followed_by(made(Made::Dir(path)), inner_walk, on_run);
                    lemma_followed_by(
                        then(made(Made::Dir(path)), inner_walk),
                        others_walk,
                        rest_run,
                    );
                }
            },
            Ok(ObjectView::Blob(data)) => if !plain_segment(leaf.path) {
                assert(stepped.1 == ActionView::Fail(CheckoutError::BadPath));
            } else {
                let waiting = CheckoutView { phase: PhaseView::LeafFile, ..reading };
                assert(stepped.0 == waiting);
                assert(stepped.1 == ActionView::CreateFile(path, data));
                let written = step_spec(waiting, answer(objects, target, None, stepped.1));
                assert(written == on);
                assert((fuel - 2) as nat == others_steps + spare);
                assert(run(objects, target, None, stepped.0, stepped.1, (fuel - 1) as nat)
                    == followed_by(made(Made::File(path, data)), on_run));
                lemma_followed_by(made(Made::File(path, data)), others_walk, rest_run);
            },
            Ok(ObjectView::Commit(_)) => {
                assert(stepped == on);
                assert((fuel - 1) as nat == others_steps + spare);
                lemma_followed_by(nothing(), others_walk, rest_run);
                lemma_then_nothing(others_walk);
            },
            Ok(ObjectView::Tag(_)) => {
                assert(stepped == on);
                assert((fuel - 1) as nat == others_steps + spare);
                lemma_followed_by(nothing(), others_walk, rest_run);
                lemma_then_nothing(others_walk);
            },
            Err(e) => {
                assert(stepped.1 == ActionView::Fail(CheckoutError::Store(e)));
            },
        }
    }
}

/// Starting on the root tree makes what the walk of its leaves makes.
proof fn lemma_walk_tree(
    objects: Map<Seq<u8>, Seq<u8>>,
    target: TargetView,
    state: CheckoutView,
    leaves: Seq<LeafView>,
    spare: nat,
)
    ensures
        ({
            let entered = crate::checkout::enter_root(state, leaves);
            let steps = if state.max_depth == 0 {
                0
            } else {
                walk_steps(objects, leaves, (state.max_depth - 1) as nat)
            };
            let walk = if state.max_depth == 0 {
                failed(CheckoutError::TooDeep)
            } else {
                walk_leaves(objects, leaves, Seq::empty(), (state.max_depth - 1) as nat)
            };
            run(objects, target, None, entered.0, entered.1, steps + spare) == Some(walk)
        }),
{
    if state.max_depth > 0 {
        let top = LevelView { leaves, next: 0, path: Seq::empty() };
        let below = Seq::<LevelView>::empty();
        assert(below.push(top) =~= seq![top]);
        assert(leaves.skip(0) =~= leaves);
        lemma_walk_level(objects, target, state, below, top, spare);
        let after = resume(state, below);
        assert(after.1 == ActionView::Done);
        let walk = walk_leaves(objects, leaves, Seq::empty(), (state.max_depth - 1) as nat);
        lemma_then_nothing(walk);
    }
}

/// Reading the root object and what follows makes what the walk of the root
/// makes.
proof fn lemma_walk_root(
    objects: Map<Seq<u8>, Seq<u8>>,
    target: TargetView,
    state: CheckoutView,
)
    ensures
        ({
            let reading = crate::checkout::read_root(state);
            run(
                objects,
                target, None, reading.0,
                reading.1,
                (checkout_steps(objects, state.root, state.max_depth) - 2) as nat,
            ) == Some(walk_root(objects, state.root, state.max_depth))
        }),
{
    let reading = crate::checkout::read_root(state);
    let fuel = (checkout_steps(objects, state.root, state.max_depth) - 2) as nat;
    match state.root {
        Some(key) => {
            let waiting = CheckoutView { phase: PhaseView::Root, ..state };
            assert(reading.0 == waiting);
            let stepped = step_spec(waiting, answer(objects, target, None, reading.1));
            assert(run(objects, target, None, reading.0, reading.1, fuel) == followed_by(
                nothing(),
                run(objects, target, None, stepped.0, stepped.1, (fuel - 1) as nat),
            ));
            lemma_followed_by(
                nothing(),
                nothing(),
                run(objects, target, None, stepped.0, stepped.1, (fuel - 1) as nat),
            );
            match fetch(objects, key) {
                Ok(ObjectView::Tree(leaves)) => {
                    assert(stepped == crate::checkout::enter_root(state, leaves));
                    lemma_walk_tree(objects, target, state, leaves, 1);
                },
                Ok(ObjectView::Commit(kvlm)) => {
                    match lookup(kvlm, tree_key()) {
                        Some(values) => {
                            match digest_of_hex(values[0]) {
                                Some(named) => {
                                    let second = CheckoutView {
                                        phase: PhaseView::CommitTree,
                                        ..state
                                    };
                                    assert(stepped.0 == second);
                                    assert(stepped.1 == ActionView::ReadObject(named));
                                    let then_on = step_spec(
                                        second,
                                        answer(objects, target, None, stepped.1),
                                    );
                                    assert(run(
                                        objects,
                                        target, None, stepped.0,
                                        stepped.1,
                                        (fuel - 1) as nat,
                                    ) == followed_by(
                                        nothing(),
                                        run(
                                            objects,
                                            target, None, then_on.0,
                                            then_on.1,
                                            (fuel - 2) as nat,
                                        ),
                                    ));
                                    lemma_followed_by(
                                        nothing(),
                                        nothing(),
                                        run(
                                            objects,
                                            target, None, then_on.0,
                                            then_on.1,
                                            (fuel - 2) as nat,
                                        ),
                                    );
                                    match fetch(objects, named) {
                                        Ok(ObjectView::Tree(leaves)) => {
                                            assert(then_on == crate::checkout::enter_root(
                                                state,
                                                leaves,
                                            ));
                                            lemma_walk_tree(objects, target, state, leaves, 0);
                                        },
                                        _ => {},
                                    }
                                },
                                None => {},
                            }
                        },
                        None => {},
                    }
                },
                _ => {},
            }
        },
        None => {},
    }
}

/// The same against a file system that never refuses.
proof fn lemma_checkout_granted(
    objects: Map<Seq<u8>, Seq<u8>>,
    target: TargetView,
    root: Seq<u8>,
    max_depth: nat,
)
    ensures
        run(
            objects,
            target, None, start_spec(root, max_depth),
            ActionView::InspectTarget,
            checkout_steps(objects, digest_of_hex(root), max_depth),
        ) == Some(checkout_outcome(objects, target, digest_of_hex(root), max_depth)),
{
    let state = start_spec(root, max_depth);
    let key = digest_of_hex(root);
    let fuel = checkout_steps(objects, key, max_depth);
    let first = step_spec(state, answer(objects, target, None, ActionView::InspectTarget));
    assert(run(objects, target, None, state, ActionView::InspectTarget, fuel) == followed_by(
        nothing(),
        run(objects, target, None, first.0, first.1, (fuel - 1) as nat),
    ));
    lemma_followed_by(
        nothing(),
        nothing(),
        run(objects, target, None, first.0, first.1, (fuel - 1) as nat),
    );
    if !target.exists {
        let waiting = CheckoutView { phase: PhaseView::TargetCreated, ..state };
        assert(first.0 == waiting);
        let second = step_spec(waiting, answer(objects, target, None, first.1));
        assert(second == crate::checkout::read_root(state));
        lemma_walk_root(objects, target, state);
        assert(run(objects, target, None, first.0, first.1, (fuel - 1) as nat) == followed_by(
            made(Made::Dir(Seq::empty())),
            run(objects, target, None, second.0, second.1, (fuel - 2) as nat),
        ));
    } else if target.is_dir && target.entries == 0 {
        assert(first == crate::checkout::read_root(state));
        lemma_walk_root(objects, target, state);
        let reading = crate::checkout::read_root(state);
        lemma_run_longer(objects, target, reading.0, reading.1, (fuel - 2) as nat, 1);
    }
}

/// One thing, and then an outcome cut short, is the two together cut short
/// one thing later.
proof fn lemma_cut_after(one: Made, rest: Outcome, left: nat)
    ensures
        then(made(one), cut(rest, Some(left))) == cut(then(made(one), rest), Some(left + 1)),
{
    let whole = then(made(one), rest);
    if left < rest.made.len() {
        assert(then(made(one), cut(rest, Some(left))).made =~= whole.made.take(left as int + 1));
    }
}

/// A file system that grants only so many creations cuts the run short: the
/// checkout makes what it would have made up to the first refusal, in the
/// same order, and ends with `Io`. Nothing that was made is undone.
pub proof fn lemma_run_refused(
    objects: Map<Seq<u8>, Seq<u8>>,
    target: TargetView,
    grants: nat,
    state: CheckoutView,
    action: ActionView,
    fuel: nat,
)
    requires
        run(objects, target, None, state, action, fuel) is Some,
    ensures
        run(objects, target, Some(grants), state, action, fuel) == Some(
            cut(run(objects, target, None, state, action, fuel)->0, Some(grants)),
        ),
    decreases fuel,
{
    match action {
        ActionView::Done => {},
        ActionView::Fail(_) => {},
        _ => {
            let granted = step_spec(state, answer(objects, target, None, action));
            let rest = run(objects, target, None, granted.0, granted.1, (fuel - 1) as nat);
            lemma_then_nothing(rest->0);
            if creates(action) {
                let one = made_by(None, action).made[0];
                assert(made_by(None, action) == made(one));
                if grants == 0 {
                    let refused = step_spec(state, answer(objects, target, Some(0nat), action));
                    assert(refused.1 == ActionView::Fail(CheckoutError::Io));
                    assert(run(
                        objects,
                        target,
                        Some(0nat),
                        refused.0,
                        refused.1,
                        (fuel - 1) as nat,
                    ) == Some(failed(CheckoutError::Io)));
                    lemma_then_nothing(failed(CheckoutError::Io));
                    assert(then(made(one), rest->0).made.take(0) =~= Seq::<Made>::empty());
                } else {
                    lemma_run_refused(
                        objects,
                        target,
                        (grants - 1) as nat,
                        granted.0,
                        granted.1,
                        (fuel - 1) as nat,
                    );
                    lemma_cut_after(one, rest->0, (grants - 1) as nat);
                }
            } else {
                lemma_run_refused(
                    objects,
                    target,
                    grants,
                    granted.0,
                    granted.1,
                    (fuel - 1) as nat,
                );
                lemma_then_nothing(cut(rest->0, Some(grants)));
            }
        },
    }
}

/// A checkout, run step by step against a store, a target and a file system
/// that never refuses, creates what `checkout_outcome` says, in that order,
/// and ends as it says. Against a file system that refuses after so many
/// creations it creates the first so many of them and ends with `Io`.
pub proof fn lemma_checkout(
    objects: Map<Seq<u8>, Seq<u8>>,
    target: TargetView,
    grants: Option<nat>,
    root: Seq<u8>,
    max_depth: nat,
)
    ensures
        run(
            objects,
            target,
            grants,
            start_spec(root, max_depth),
            ActionView::InspectTarget,
            checkout_steps(objects, digest_of_hex(root), max_depth),
        ) == Some(cut(checkout_outcome(objects, target, digest_of_hex(root), max_depth), grants)),
{
    let state = start_spec(root, max_depth);
    let fuel = checkout_steps(objects, digest_of_hex(root), max_depth);
    lemma_checkout_granted(objects, target, root, max_depth);
    match grants {
        Some(left) => {
            lemma_run_refused(objects, target, left, state, ActionView::InspectTarget, fuel);
        },
        None => {},
    }
}

/// A tree with one leaf that names a blob, checked out into an empty
/// directory with room for at least one tree, makes one file: the leaf's
/// path below the target, holding the blob's bytes. The checkout ends
/// without an error.
pub proof fn lemma_checkout_one_file(
    objects: Map<Seq<u8>, Seq<u8>>,
    root: Seq<u8>,
    key: Seq<u8>,
    leaf: LeafView,
    data: Seq<u8>,
    max_depth: nat,
)
    requires
        digest_of_hex(root) == Some(key),
        fetch(objects, key) == Ok::<ObjectView, StoreError>(ObjectView::Tree(seq![leaf])),
        fetch(objects, leaf.digest) == Ok::<ObjectView, StoreError>(ObjectView::Blob(data)),
        plain_segment(leaf.path),
        max_depth > 0,
    ensures
        ({
            let target = TargetView { exists: true, is_dir: true, entries: 0 };
            let file = Made::File(seq![leaf.path], data);
            &&& checkout_outcome(objects, target, Some(key), max_depth) == made(file)
            &&& run(
                objects,
                target,
                None,
                start_spec(root, max_depth),
                ActionView::InspectTarget,
                checkout_steps(objects, Some(key), max_depth),
            ) == Some(made(file))
        }),
{
    let target = TargetView { exists: true, is_dir: true, entries: 0 };
    let leaves = seq![leaf];
    let depth = (max_depth - 1) as nat;
    let path = Seq::<Seq<u8>>::empty().push(leaf.path);
    assert(path =~= seq![leaf.path]);
    assert(leaves.drop_first() =~= Seq::<LeafView>::empty());
    assert(walk_leaves(objects, leaves.drop_first(), Seq::empty(), depth) == nothing());
    lemma_then_nothing(made(Made::File(path, data)));
    assert(walk_leaves(objects, leaves, Seq::empty(), depth) == made(Made::File(path, data)));
    lemma_checkout(objects, target, None, root, max_depth);
}

} // verus!
