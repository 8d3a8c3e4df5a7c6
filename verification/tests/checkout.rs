use std::collections::HashMap;

use wyag::checkout::CheckoutAction;
use wyag::checkout::CheckoutEvent;
use wyag::checkout::CheckoutState;
use wyag::checkout::Phase;
use wyag::codec::Digest;
use wyag::error::CheckoutError;
use wyag::error::StoreError;
use wyag::kind::ObjectType;
use wyag::store::object_hash;

struct World {
    grants: Option<usize>,
    store: HashMap<String, Vec<u8>>,
    target_exists: bool,
    target_is_dir: bool,
    target_entries: usize,
    dirs: Vec<String>,
    files: Vec<(String, Vec<u8>)>,
    reads: Vec<String>,
}

fn world() -> World {
    World {
        grants: None,
        store: HashMap::new(),
        target_exists: true,
        target_is_dir: true,
        target_entries: 0,
        dirs: Vec::new(),
        files: Vec::new(),
        reads: Vec::new(),
    }
}

fn put(world: &mut World, kind: ObjectType, payload: &[u8]) -> Digest {
    let plan = object_hash(payload, kind, true).unwrap();
    world.store.insert(plan.digest.to_hex(), plan.file.unwrap().contents);
    plan.digest
}

fn leaf(mode: &str, path: &str, digest: &Digest) -> Vec<u8> {
    let mut out = format!("{} {}\0", mode, path).into_bytes();
    out.extend_from_slice(digest.as_bytes());
    out
}

fn join(path: &[Vec<u8>]) -> String {
    let segments: Vec<String> =
        path.iter().map(|s| String::from_utf8(s.clone()).unwrap()).collect();
    segments.join("/")
}

fn granted(world: &mut World) -> bool {
    match world.grants {
        Some(0) => false,
        Some(left) => {
            world.grants = Some(left - 1);
            true
        }
        None => true,
    }
}

fn perform(world: &mut World, action: CheckoutAction) -> CheckoutEvent {
    match action {
        CheckoutAction::InspectTarget => CheckoutEvent::Target {
            exists: world.target_exists,
            is_dir: world.target_is_dir,
            entries: world.target_entries,
        },
        CheckoutAction::CreateDir(path) => {
            let name = join(&path);
            if world.dirs.contains(&name)
                || world.files.iter().any(|(f, _)| *f == name)
                || !granted(world)
            {
                CheckoutEvent::Failed
            } else {
                world.dirs.push(name);
                CheckoutEvent::Created
            }
        }
        CheckoutAction::ReadObject(digest) => {
            world.reads.push(digest.to_hex());
            CheckoutEvent::Object(world.store.get(&digest.to_hex()).cloned())
        }
        CheckoutAction::CreateFile(path, data) => {
            let name = join(&path);
            if world.dirs.contains(&name)
                || world.files.iter().any(|(f, _)| *f == name)
                || !granted(world)
            {
                CheckoutEvent::Failed
            } else {
                world.files.push((name, data));
                CheckoutEvent::Created
            }
        }
        CheckoutAction::Done | CheckoutAction::Fail(_) => unreachable!(),
    }
}

fn run(world: &mut World, root: &str, max_depth: usize) -> Result<(), CheckoutError> {
    let (mut state, mut action) = CheckoutState::start(root, max_depth);
    for _ in 0..1000 {
        match action {
            CheckoutAction::Done => {
                assert!(matches!(state.phase, Phase::Ended));
                return Ok(());
            }
            CheckoutAction::Fail(e) => {
                assert!(matches!(state.phase, Phase::Ended));
                return Err(e);
            }
            other => {
                let event = perform(world, other);
                action = state.step(event);
            }
        }
    }
    panic!("the checkout does not end");
}

#[test]
fn tree_scenario() {
    let mut w = world();
    let blob = put(&mut w, ObjectType::Blob, b"hello\n");
    assert_eq!(blob.to_hex(), "ce013625030ba8dba906f756967f9e9ca394464a");
    let tree = put(&mut w, ObjectType::Tree, &leaf("100644", "a.txt", &blob));
    assert_eq!(run(&mut w, &tree.to_hex(), 16), Ok(()));
    assert_eq!(w.files, vec![("a.txt".to_string(), b"hello\n".to_vec())]);
    assert!(w.dirs.is_empty());
    assert_eq!(w.reads, vec![tree.to_hex(), blob.to_hex()]);
}

#[test]
fn first_action_looks_at_the_target() {
    let (state, action) = CheckoutState::start("ce013625030ba8dba906f756967f9e9ca394464a", 4);
    assert!(matches!(action, CheckoutAction::InspectTarget));
    assert!(matches!(state.phase, Phase::Target));
    assert_eq!(state.root, Digest::from_hex("ce013625030ba8dba906f756967f9e9ca394464a"));
    assert_eq!(state.max_depth, 4);
    assert!(state.levels.is_empty());
}

#[test]
fn missing_target_is_created_and_filled() {
    let mut w = world();
    w.target_exists = false;
    w.target_is_dir = false;
    let blob = put(&mut w, ObjectType::Blob, b"hello\n");
    let tree = put(&mut w, ObjectType::Tree, &leaf("100644", "a.txt", &blob));
    assert_eq!(run(&mut w, &tree.to_hex(), 16), Ok(()));
    assert_eq!(w.dirs, vec!["".to_string()]);
    assert_eq!(w.files, vec![("a.txt".to_string(), b"hello\n".to_vec())]);
}

#[test]
fn target_that_holds_entries() {
    let mut w = world();
    w.target_entries = 1;
    let blob = put(&mut w, ObjectType::Blob, b"hello\n");
    let tree = put(&mut w, ObjectType::Tree, &leaf("100644", "a.txt", &blob));
    assert_eq!(run(&mut w, &tree.to_hex(), 16), Err(CheckoutError::TargetNotEmpty));
    assert!(w.dirs.is_empty());
    assert!(w.files.is_empty());
    assert!(w.reads.is_empty());
}

#[test]
fn target_that_is_no_directory() {
    let mut w = world();
    w.target_is_dir = false;
    w.target_entries = 3;
    let tree = put(&mut w, ObjectType::Tree, b"");
    assert_eq!(run(&mut w, &tree.to_hex(), 16), Err(CheckoutError::TargetNotDirectory));
    assert!(w.dirs.is_empty());
    assert!(w.reads.is_empty());
}

#[test]
fn target_is_checked_before_the_root_is_read() {
    let mut w = world();
    w.target_entries = 2;
    assert_eq!(run(&mut w, "no such object", 16), Err(CheckoutError::TargetNotEmpty));
}

#[test]
fn commit_leads_to_its_tree() {
    let mut w = world();
    let blob = put(&mut w, ObjectType::Blob, b"hello\n");
    let tree = put(&mut w, ObjectType::Tree, &leaf("100644", "a.txt", &blob));
    let payload = format!("tree {}\nauthor me\n\nInitial commit\n", tree.to_hex());
    let commit = put(&mut w, ObjectType::Commit, payload.as_bytes());
    assert_eq!(run(&mut w, &commit.to_hex(), 16), Ok(()));
    assert_eq!(w.files, vec![("a.txt".to_string(), b"hello\n".to_vec())]);
    assert_eq!(w.reads, vec![commit.to_hex(), tree.to_hex(), blob.to_hex()]);
}

#[test]
fn commit_uses_its_first_tree_field() {
    let mut w = world();
    let blob = put(&mut w, ObjectType::Blob, b"1");
    let first = put(&mut w, ObjectType::Tree, &leaf("100644", "first", &blob));
    let second = put(&mut w, ObjectType::Tree, &leaf("100644", "second", &blob));
    let payload = format!("tree {}\ntree {}\n\nm", first.to_hex().to_uppercase(), second.to_hex());
    let commit = put(&mut w, ObjectType::Commit, payload.as_bytes());
    assert_eq!(run(&mut w, &commit.to_hex(), 16), Ok(()));
    assert_eq!(w.files, vec![("first".to_string(), b"1".to_vec())]);
}

#[test]
fn commit_without_a_tree_field() {
    let mut w = world();
    let commit = put(&mut w, ObjectType::Commit, b"author me\n\nno tree\n");
    assert_eq!(run(&mut w, &commit.to_hex(), 16), Err(CheckoutError::NoTreeField));
}

#[test]
fn commit_whose_tree_is_a_blob() {
    let mut w = world();
    let blob = put(&mut w, ObjectType::Blob, b"hello\n");
    let payload = format!("tree {}\n\nm", blob.to_hex());
    let commit = put(&mut w, ObjectType::Commit, payload.as_bytes());
    assert_eq!(run(&mut w, &commit.to_hex(), 16), Err(CheckoutError::NotATree));
    assert!(w.files.is_empty());
}

#[test]
fn commit_whose_tree_is_a_commit() {
    let mut w = world();
    let tree = put(&mut w, ObjectType::Tree, b"");
    let inner = put(&mut w, ObjectType::Commit, format!("tree {}\n\nm", tree.to_hex()).as_bytes());
    let outer = put(&mut w, ObjectType::Commit, format!("tree {}\n\nm", inner.to_hex()).as_bytes());
    assert_eq!(run(&mut w, &outer.to_hex(), 16), Err(CheckoutError::NotATree));
}

#[test]
fn commit_whose_tree_is_no_key() {
    let mut w = world();
    let commit = put(&mut w, ObjectType::Commit, b"tree master\n\nm");
    assert_eq!(run(&mut w, &commit.to_hex(), 16), Err(CheckoutError::NotATree));
}

#[test]
fn commit_whose_tree_is_missing() {
    let mut w = world();
    let payload = format!("tree {}\n\nm", Digest::of(b"nowhere").to_hex());
    let commit = put(&mut w, ObjectType::Commit, payload.as_bytes());
    assert_eq!(
        run(&mut w, &commit.to_hex(), 16),
        Err(CheckoutError::Store(StoreError::NotFound))
    );
}

#[test]
fn root_that_is_a_blob_or_a_tag() {
    let mut w = world();
    let blob = put(&mut w, ObjectType::Blob, b"hello\n");
    assert_eq!(run(&mut w, &blob.to_hex(), 16), Err(CheckoutError::NotATree));
    let tag = put(&mut w, ObjectType::Tag, b"tree abc\n\nm");
    assert_eq!(run(&mut w, &tag.to_hex(), 16), Err(CheckoutError::NotATree));
}

#[test]
fn root_that_is_not_stored() {
    let mut w = world();
    assert_eq!(
        run(&mut w, &Digest::of(b"nowhere").to_hex(), 16),
        Err(CheckoutError::Store(StoreError::NotFound))
    );
    assert_eq!(w.reads.len(), 1);
}

#[test]
fn root_whose_name_is_no_key() {
    let mut w = world();
    assert_eq!(run(&mut w, "HEAD", 16), Err(CheckoutError::Store(StoreError::NotFound)));
    assert!(w.reads.is_empty());
    w.target_exists = false;
    assert_eq!(run(&mut w, "ce01", 16), Err(CheckoutError::Store(StoreError::NotFound)));
    assert_eq!(w.dirs, vec!["".to_string()]);
}

#[test]
fn root_that_is_corrupt() {
    let mut w = world();
    let key = Digest::of(b"x");
    w.store.insert(key.to_hex(), b"not a zlib stream".to_vec());
    assert_eq!(run(&mut w, &key.to_hex(), 16), Err(CheckoutError::Store(StoreError::Corrupt)));
}

#[test]
fn empty_tree_is_done_at_once() {
    let mut w = world();
    let tree = put(&mut w, ObjectType::Tree, b"");
    assert_eq!(tree.to_hex(), "4b825dc642cb6eb9a060e54bf8d69288fbee4904");
    assert_eq!(run(&mut w, &tree.to_hex(), 16), Ok(()));
    assert!(w.files.is_empty());
    assert!(w.dirs.is_empty());
}

#[test]
fn nested_trees_in_stored_order() {
    let mut w = world();
    let one = put(&mut w, ObjectType::Blob, b"one");
    let two = put(&mut w, ObjectType::Blob, b"two");
    let three = put(&mut w, ObjectType::Blob, b"three");
    let empty = put(&mut w, ObjectType::Tree, b"");
    let deep = put(&mut w, ObjectType::Tree, &leaf("100644", "deep.txt", &three));
    let mut sub = leaf("100644", "in.txt", &two);
    sub.extend(leaf("40000", "deeper", &deep));
    sub.extend(leaf("40000", "hollow", &empty));
    let sub = put(&mut w, ObjectType::Tree, &sub);
    let mut root = leaf("100644", "z-first.txt", &one);
    root.extend(leaf("40000", "sub", &sub));
    root.extend(leaf("100755", "after.sh", &two));
    root.extend(leaf("40000", "last", &empty));
    let root = put(&mut w, ObjectType::Tree, &root);
    assert_eq!(run(&mut w, &root.to_hex(), 3), Ok(()));
    assert_eq!(
        w.files,
        vec![
            ("z-first.txt".to_string(), b"one".to_vec()),
            ("sub/in.txt".to_string(), b"two".to_vec()),
            ("sub/deeper/deep.txt".to_string(), b"three".to_vec()),
            ("after.sh".to_string(), b"two".to_vec()),
        ]
    );
    assert_eq!(
        w.dirs,
        vec![
            "sub".to_string(),
            "sub/deeper".to_string(),
            "sub/hollow".to_string(),
            "last".to_string()
        ]
    );
}

#[test]
fn leaf_of_another_kind_is_passed_over() {
    let mut w = world();
    let blob = put(&mut w, ObjectType::Blob, b"data");
    let commit = put(&mut w, ObjectType::Commit, b"tree abc\n\nm");
    let tag = put(&mut w, ObjectType::Tag, b"object abc\n\nm");
    let mut root = leaf("160000", "module", &commit);
    root.extend(leaf("100644", "file", &blob));
    root.extend(leaf("100644", "tagged", &tag));
    let root = put(&mut w, ObjectType::Tree, &root);
    assert_eq!(run(&mut w, &root.to_hex(), 16), Ok(()));
    assert_eq!(w.files, vec![("file".to_string(), b"data".to_vec())]);
    assert!(w.dirs.is_empty());
    assert_eq!(w.reads.len(), 4);
}

#[test]
fn missing_leaf_aborts_and_keeps_what_was_written() {
    let mut w = world();
    let blob = put(&mut w, ObjectType::Blob, b"data");
    let mut root = leaf("100644", "kept", &blob);
    root.extend(leaf("100644", "lost", &Digest::of(b"nowhere")));
    root.extend(leaf("100644", "never", &blob));
    let root = put(&mut w, ObjectType::Tree, &root);
    assert_eq!(
        run(&mut w, &root.to_hex(), 16),
        Err(CheckoutError::Store(StoreError::NotFound))
    );
    assert_eq!(w.files, vec![("kept".to_string(), b"data".to_vec())]);
}

#[test]
fn leaf_with_a_wrong_length_aborts() {
    let mut w = world();
    let key = Digest::of(b"bad");
    let mut encoder =
        flate2::write::ZlibEncoder::new(Vec::new(), flate2::Compression::default());
    std::io::Write::write_all(&mut encoder, b"blob 3\0four").unwrap();
    w.store.insert(key.to_hex(), encoder.finish().unwrap());
    let root = put(&mut w, ObjectType::Tree, &leaf("100644", "bad", &key));
    assert_eq!(
        run(&mut w, &root.to_hex(), 16),
        Err(CheckoutError::Store(StoreError::SizeMismatch))
    );
    assert!(w.files.is_empty());
}

#[test]
fn file_that_exists_is_not_overwritten() {
    let mut w = world();
    let one = put(&mut w, ObjectType::Blob, b"one");
    let two = put(&mut w, ObjectType::Blob, b"two");
    let mut root = leaf("100644", "same", &one);
    root.extend(leaf("100644", "same", &two));
    let root = put(&mut w, ObjectType::Tree, &root);
    assert_eq!(run(&mut w, &root.to_hex(), 16), Err(CheckoutError::Io));
    assert_eq!(w.files, vec![("same".to_string(), b"one".to_vec())]);
}

#[test]
fn directory_that_cannot_be_created() {
    let mut w = world();
    let blob = put(&mut w, ObjectType::Blob, b"one");
    let empty = put(&mut w, ObjectType::Tree, b"");
    let mut root = leaf("100644", "name", &blob);
    root.extend(leaf("40000", "name", &empty));
    let root = put(&mut w, ObjectType::Tree, &root);
    assert_eq!(run(&mut w, &root.to_hex(), 16), Err(CheckoutError::Io));
    assert!(w.dirs.is_empty());
}

#[test]
fn depth_is_bounded() {
    let mut w = world();
    let blob = put(&mut w, ObjectType::Blob, b"x");
    let inner = put(&mut w, ObjectType::Tree, &leaf("100644", "x", &blob));
    let middle = put(&mut w, ObjectType::Tree, &leaf("40000", "inner", &inner));
    let mut outer = leaf("100644", "top", &blob);
    outer.extend(leaf("40000", "middle", &middle));
    let outer = put(&mut w, ObjectType::Tree, &outer);

    assert_eq!(run(&mut w, &outer.to_hex(), 0), Err(CheckoutError::TooDeep));
    assert!(w.files.is_empty());

    assert_eq!(run(&mut w, &outer.to_hex(), 1), Err(CheckoutError::TooDeep));
    assert_eq!(w.files, vec![("top".to_string(), b"x".to_vec())]);
    assert!(w.dirs.is_empty());

    let mut w2 = world();
    w2.store = w.store.clone();
    assert_eq!(run(&mut w2, &outer.to_hex(), 2), Err(CheckoutError::TooDeep));
    assert_eq!(w2.dirs, vec!["middle".to_string()]);

    let mut w3 = world();
    w3.store = w.store.clone();
    assert_eq!(run(&mut w3, &outer.to_hex(), 3), Ok(()));
    assert_eq!(w3.dirs, vec!["middle".to_string(), "middle/inner".to_string()]);
    assert_eq!(
        w3.files,
        vec![("top".to_string(), b"x".to_vec()), ("middle/inner/x".to_string(), b"x".to_vec())]
    );
}

#[test]
fn a_tree_that_names_itself_by_another_path_ends() {
    let mut w = world();
    let blob = put(&mut w, ObjectType::Blob, b"x");
    let inner = put(&mut w, ObjectType::Tree, &leaf("100644", "x", &blob));
    let mut outer = leaf("40000", "a", &inner);
    outer.extend(leaf("40000", "b", &inner));
    let outer = put(&mut w, ObjectType::Tree, &outer);
    assert_eq!(run(&mut w, &outer.to_hex(), 2), Ok(()));
    assert_eq!(
        w.files,
        vec![("a/x".to_string(), b"x".to_vec()), ("b/x".to_string(), b"x".to_vec())]
    );
}

#[test]
fn refused_target_creation() {
    let (mut state, _) = CheckoutState::start("ce013625030ba8dba906f756967f9e9ca394464a", 4);
    let action = state.step(CheckoutEvent::Target { exists: false, is_dir: false, entries: 0 });
    assert!(matches!(action, CheckoutAction::CreateDir(path) if path.is_empty()));
    assert!(matches!(state.phase, Phase::TargetCreated));
    let action = state.step(CheckoutEvent::Failed);
    assert!(matches!(action, CheckoutAction::Fail(CheckoutError::Io)));
    assert!(matches!(state.phase, Phase::Ended));
}

#[test]
fn event_that_was_not_asked_for() {
    let (mut state, _) = CheckoutState::start("ce013625030ba8dba906f756967f9e9ca394464a", 4);
    let action = state.step(CheckoutEvent::Created);
    assert!(matches!(action, CheckoutAction::Fail(CheckoutError::Io)));
    let (mut state, _) = CheckoutState::start("ce013625030ba8dba906f756967f9e9ca394464a", 4);
    let action = state.step(CheckoutEvent::Object(None));
    assert!(matches!(action, CheckoutAction::Fail(CheckoutError::Io)));
    let (mut state, _) = CheckoutState::start("ce013625030ba8dba906f756967f9e9ca394464a", 4);
    state.step(CheckoutEvent::Target { exists: true, is_dir: true, entries: 0 });
    let action = state.step(CheckoutEvent::Target { exists: true, is_dir: true, entries: 0 });
    assert!(matches!(action, CheckoutAction::Fail(CheckoutError::Io)));
}

#[test]
fn nothing_follows_the_end() {
    let mut w = world();
    let tree = put(&mut w, ObjectType::Tree, b"");
    let (mut state, _) = CheckoutState::start(&tree.to_hex(), 4);
    let action = state.step(CheckoutEvent::Target { exists: true, is_dir: true, entries: 0 });
    assert!(matches!(action, CheckoutAction::ReadObject(d) if d == tree));
    let stored = w.store.get(&tree.to_hex()).cloned();
    let action = state.step(CheckoutEvent::Object(stored.clone()));
    assert!(matches!(action, CheckoutAction::Done));
    let action = state.step(CheckoutEvent::Object(stored));
    assert!(matches!(action, CheckoutAction::Fail(CheckoutError::Io)));
    let action = state.step(CheckoutEvent::Created);
    assert!(matches!(action, CheckoutAction::Fail(CheckoutError::Io)));
}

#[test]
fn refusal_cuts_the_checkout_short() {
    let mut full = world();
    full.target_exists = false;
    let one = put(&mut full, ObjectType::Blob, b"one");
    let two = put(&mut full, ObjectType::Blob, b"two");
    let mut sub = leaf("100644", "in.txt", &two);
    sub.extend(leaf("100644", "more.txt", &one));
    let sub = put(&mut full, ObjectType::Tree, &sub);
    let mut root = leaf("100644", "first.txt", &one);
    root.extend(leaf("40000", "sub", &sub));
    root.extend(leaf("100644", "last.txt", &two));
    let root = put(&mut full, ObjectType::Tree, &root);
    assert_eq!(run(&mut full, &root.to_hex(), 8), Ok(()));
    let made = full.dirs.len() + full.files.len();
    assert_eq!(made, 6);
    assert_eq!(full.dirs, vec!["".to_string(), "sub".to_string()]);
    for grants in 0..made {
        let mut cut = world();
        cut.target_exists = false;
        cut.store = full.store.clone();
        cut.grants = Some(grants);
        assert_eq!(run(&mut cut, &root.to_hex(), 8), Err(CheckoutError::Io));
        assert_eq!(cut.dirs.len() + cut.files.len(), grants);
        assert_eq!(cut.dirs[..], full.dirs[..cut.dirs.len()]);
        assert_eq!(cut.files[..], full.files[..cut.files.len()]);
    }
    let mut enough = world();
    enough.target_exists = false;
    enough.store = full.store.clone();
    enough.grants = Some(made);
    assert_eq!(run(&mut enough, &root.to_hex(), 8), Ok(()));
    assert_eq!(enough.files, full.files);
}

#[test]
fn leaf_whose_path_is_no_plain_name() {
    for path in ["..", ".", "a/b", "/abs", "", "../up"] {
        let mut w = world();
        let blob = put(&mut w, ObjectType::Blob, b"data");
        let mut root = leaf("100644", "kept", &blob);
        root.extend(leaf("100644", path, &blob));
        root.extend(leaf("100644", "never", &blob));
        let root = put(&mut w, ObjectType::Tree, &root);
        assert_eq!(run(&mut w, &root.to_hex(), 16), Err(CheckoutError::BadPath));
        assert_eq!(w.files, vec![("kept".to_string(), b"data".to_vec())]);
        assert!(w.dirs.is_empty());
    }
}

#[test]
fn tree_leaf_whose_path_is_no_plain_name() {
    for path in ["..", "a/b", ""] {
        let mut w = world();
        let blob = put(&mut w, ObjectType::Blob, b"data");
        let inner = put(&mut w, ObjectType::Tree, &leaf("100644", "x", &blob));
        let root = put(&mut w, ObjectType::Tree, &leaf("40000", path, &inner));
        assert_eq!(run(&mut w, &root.to_hex(), 16), Err(CheckoutError::BadPath));
        assert_eq!(run(&mut w, &root.to_hex(), 1), Err(CheckoutError::BadPath));
        assert!(w.files.is_empty());
        assert!(w.dirs.is_empty());
    }
}

#[test]
fn path_is_not_tested_where_nothing_is_created() {
    let mut w = world();
    let blob = put(&mut w, ObjectType::Blob, b"data");
    let commit = put(&mut w, ObjectType::Commit, b"tree abc\n\nm");
    let mut root = leaf("160000", "../module", &commit);
    root.extend(leaf("100644", "...", &blob));
    root.extend(leaf("100644", ".hidden", &blob));
    root.extend(leaf("100644", "a\\b", &blob));
    let root = put(&mut w, ObjectType::Tree, &root);
    assert_eq!(run(&mut w, &root.to_hex(), 16), Ok(()));
    assert_eq!(w.files.len(), 3);
    assert_eq!(w.files[0].0, "...");
    assert_eq!(w.files[1].0, ".hidden");
    assert_eq!(w.files[2].0, "a\\b");
}
