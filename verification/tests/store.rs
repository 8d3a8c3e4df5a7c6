use std::io::Write;

use wyag::codec::Digest;
use wyag::error::FormatError;
use wyag::error::StoreError;
use wyag::kind::ObjectType;
use wyag::object::Blob;
use wyag::object::Commit;
use wyag::object::Object;
use wyag::object::ObjectSelect;
use wyag::store::frame_of;
use wyag::store::frame_parse;
use wyag::store::object_decode;
use wyag::store::object_file;
use wyag::store::object_find;
use wyag::store::object_hash;
use wyag::store::object_inflated;
use wyag::store::object_read;
use wyag::store::object_write;
use wyag::store::write_outcome;
use wyag::tree::Tree;

const HELLO: &str = "ce013625030ba8dba906f756967f9e9ca394464a";

fn deflate(raw: &[u8]) -> Vec<u8> {
    let mut encoder =
        flate2::write::ZlibEncoder::new(Vec::new(), flate2::Compression::default());
    encoder.write_all(raw).unwrap();
    encoder.finish().unwrap()
}

#[test]
fn frame_of_a_blob() {
    assert_eq!(frame_of(ObjectType::Blob, b"hello\n"), b"blob 6\0hello\n".to_vec());
    assert_eq!(frame_of(ObjectType::Blob, b""), b"blob 0\0".to_vec());
    assert_eq!(frame_of(ObjectType::Commit, b"0123456789"), b"commit 10\x000123456789".to_vec());
    assert_eq!(frame_of(ObjectType::Tree, b"x"), b"tree 1\0x".to_vec());
    assert_eq!(frame_of(ObjectType::Tag, b"xy"), b"tag 2\0xy".to_vec());
}

#[test]
fn frame_header_is_read() {
    assert_eq!(frame_parse(b"blob 6\0hello\n"), Ok((ObjectType::Blob, 7)));
    assert_eq!(frame_parse(b"commit 0\0"), Ok((ObjectType::Commit, 9)));
    assert_eq!(frame_parse(b"tree 003\0abc"), Ok((ObjectType::Tree, 9)));
    assert_eq!(frame_parse(b"tag 2\0\0\0"), Ok((ObjectType::Tag, 6)));
}

#[test]
fn frame_round_trip() {
    for kind in [ObjectType::Commit, ObjectType::Tag, ObjectType::Tree, ObjectType::Blob] {
        for payload in [&b""[..], b"x", b"0123456789", b"\0 \0 1 \n"] {
            let raw = frame_of(kind, payload);
            let (got, start) = frame_parse(&raw).unwrap();
            assert_eq!(got, kind);
            assert_eq!(&raw[start..], payload);
        }
    }
}

#[test]
fn frame_without_header_is_corrupt() {
    assert_eq!(frame_parse(b""), Err(StoreError::Corrupt));
    assert_eq!(frame_parse(b"blob"), Err(StoreError::Corrupt));
    assert_eq!(frame_parse(b"blob 6"), Err(StoreError::Corrupt));
    assert_eq!(frame_parse(b"blob6\0hello\n"), Err(StoreError::Corrupt));
    assert_eq!(frame_parse(b"blob\x006 hello\n"), Err(StoreError::Corrupt));
    assert_eq!(frame_parse(b"blob \0"), Err(StoreError::Corrupt));
    assert_eq!(frame_parse(b"blob six\0hello\n"), Err(StoreError::Corrupt));
    assert_eq!(frame_parse(b"blob +6\0hello\n"), Err(StoreError::Corrupt));
    assert_eq!(frame_parse(b"blob 6 \0hello\n"), Err(StoreError::Corrupt));
}

#[test]
fn declared_length_must_match() {
    assert_eq!(frame_parse(b"blob 5\0hello\n"), Err(StoreError::SizeMismatch));
    assert_eq!(frame_parse(b"blob 7\0hello\n"), Err(StoreError::SizeMismatch));
    assert_eq!(frame_parse(b"blob 0\0x"), Err(StoreError::SizeMismatch));
    assert_eq!(frame_parse(b"blob 1\0"), Err(StoreError::SizeMismatch));
    assert_eq!(
        frame_parse(b"blob 99999999999999999999999999\0hello\n"),
        Err(StoreError::SizeMismatch)
    );
    assert_eq!(frame_parse(b"nothing 5\0hello\n"), Err(StoreError::SizeMismatch));
    assert_eq!(object_decode(b"blob 5\0hello\n").err(), Some(StoreError::SizeMismatch));
    assert_eq!(object_decode(b"commit 1\0\n\n").err(), Some(StoreError::SizeMismatch));
}

#[test]
fn stored_file_with_wrong_length_is_not_read() {
    let stored = deflate(b"blob 5\0hello\n");
    assert_eq!(object_read(Some(&stored)).err(), Some(StoreError::SizeMismatch));
    let longer = deflate(b"blob 7\0hello\n");
    assert_eq!(object_read(Some(&longer)).err(), Some(StoreError::SizeMismatch));
}

#[test]
fn unknown_kind() {
    assert_eq!(frame_parse(b"nothing 6\0hello\n"), Err(StoreError::UnknownKind));
    assert_eq!(frame_parse(b"Blob 6\0hello\n"), Err(StoreError::UnknownKind));
    assert_eq!(frame_parse(b" 6\0hello\n"), Err(StoreError::UnknownKind));
    assert_eq!(object_read(Some(&deflate(b"blobs 1\0x"))).err(), Some(StoreError::UnknownKind));
}

#[test]
fn malformed_payload_in_a_sound_frame() {
    assert_eq!(
        object_decode(b"tree 3\0abc").err(),
        Some(StoreError::Format(FormatError::BadMode))
    );
    assert_eq!(
        object_decode(b"tree 12\x00100644 a.txt").err(),
        Some(StoreError::Format(FormatError::MissingTerminator))
    );
    assert_eq!(
        object_decode(b"tree 14\x00100644 a.txt\0\x01").err(),
        Some(StoreError::Format(FormatError::TruncatedDigest))
    );
    assert_eq!(
        object_decode(b"commit 1\0\xff").err(),
        Some(StoreError::Format(FormatError::BadUtf8))
    );
    assert_eq!(
        object_decode(b"tag 0\0").err(),
        Some(StoreError::Format(FormatError::MissingTerminator))
    );
}

#[test]
fn missing_file_is_not_found() {
    assert_eq!(object_read(None).err(), Some(StoreError::NotFound));
}

#[test]
fn file_that_does_not_inflate_is_corrupt() {
    assert_eq!(object_read(Some(b"blob 6\0hello\n")).err(), Some(StoreError::Corrupt));
    assert_eq!(object_read(Some(b"")).err(), Some(StoreError::Corrupt));
    let stored = deflate(b"blob 6\0hello\n");
    assert_eq!(object_read(Some(&stored[..stored.len() / 2])).err(), Some(StoreError::Corrupt));
    assert_eq!(object_inflated(None).err(), Some(StoreError::Corrupt));
}

#[test]
fn inflated_frame_is_decoded() {
    let object = object_inflated(Some(b"blob 6\0hello\n".to_vec())).unwrap();
    assert_eq!(object.kind(), ObjectType::Blob);
    assert_eq!(object.serialize(), b"hello\n".to_vec());
}

#[test]
fn stored_file_is_read() {
    let object = object_read(Some(&deflate(b"blob 6\0hello\n"))).unwrap();
    assert!(matches!(object, ObjectSelect::Blob(blob) if blob.data == b"hello\n".to_vec()));
}

#[test]
fn blob_scenario() {
    let blob = Blob::deserialize(b"hello\n");
    let plan = object_write(&blob, true).unwrap();
    assert_eq!(plan.digest.to_hex(), HELLO);
    let file = plan.file.unwrap();
    assert_eq!(file.path, "objects/ce/013625030ba8dba906f756967f9e9ca394464a");
    assert_ne!(file.contents, b"blob 6\0hello\n".to_vec());
    let read = object_read(Some(&file.contents)).unwrap();
    assert!(matches!(read, ObjectSelect::Blob(blob) if blob.data == b"hello\n".to_vec()));
}

#[test]
fn known_keys() {
    let empty_blob = object_write(&Blob::deserialize(b""), false).unwrap();
    assert_eq!(empty_blob.digest.to_hex(), "e69de29bb2d1d6434b8b29ae775ad8c2e48c5391");
    let empty_tree = object_write(&Tree::deserialize(b"").unwrap(), false).unwrap();
    assert_eq!(empty_tree.digest.to_hex(), "4b825dc642cb6eb9a060e54bf8d69288fbee4904");
    let line = object_write(&Blob::deserialize(b"hello world\n"), false).unwrap();
    assert_eq!(line.digest.to_hex(), "3b18e512dba79e4c8300dd08aeb37f8e728b8dad");
}

#[test]
fn key_is_the_digest_of_the_frame() {
    let commit = Commit::deserialize(b"tree abc\n\nm").unwrap();
    let plan = object_write(&commit, false).unwrap();
    assert_eq!(plan.digest, Digest::of(b"commit 11\0tree abc\n\nm"));
    assert_ne!(plan.digest, Digest::of(b"tree abc\n\nm"));
}

#[test]
fn write_without_persist_gives_the_key_alone() {
    let plan = object_write(&Blob::deserialize(b"hello\n"), false).unwrap();
    assert_eq!(plan.digest.to_hex(), HELLO);
    assert!(plan.file.is_none());
}

#[test]
fn same_content_same_key_and_path() {
    let first = object_write(&Blob::deserialize(b"hello\n"), true).unwrap();
    let second = object_write(&Blob::deserialize(b"hello\n"), true).unwrap();
    assert_eq!(first.digest, second.digest);
    assert_eq!(first.file.as_ref().unwrap().path, second.file.as_ref().unwrap().path);
    assert_eq!(first.file.as_ref().unwrap().contents, second.file.as_ref().unwrap().contents);
    let other_kind = object_hash(b"hello\n", ObjectType::Blob, false).unwrap();
    assert_eq!(other_kind.digest, first.digest);
    let other = object_write(&Blob::deserialize(b"hello"), true).unwrap();
    assert_ne!(other.digest, first.digest);
    assert_ne!(other.file.unwrap().path, first.file.unwrap().path);
}

#[test]
fn second_write_creates_nothing() {
    let mut files: Vec<(String, Vec<u8>)> = Vec::new();
    for _ in 0..2 {
        let plan = object_write(&Blob::deserialize(b"hello\n"), true).unwrap();
        let path = plan.file.as_ref().unwrap().path.clone();
        let present = files.iter().any(|(p, _)| *p == path);
        if let Some(file) = plan.to_create(present) {
            files.push((file.path, file.contents));
        }
    }
    assert_eq!(files.len(), 1);
    assert_eq!(files[0].0, "objects/ce/013625030ba8dba906f756967f9e9ca394464a");
    let read = object_read(Some(&files[0].1)).unwrap();
    assert_eq!(read.serialize(), b"hello\n".to_vec());
}

#[test]
fn to_create_keeps_a_stored_file() {
    let plan = object_write(&Blob::deserialize(b"x"), true).unwrap();
    assert!(plan.to_create(true).is_none());
    let plan = object_write(&Blob::deserialize(b"x"), true).unwrap();
    assert!(plan.to_create(false).is_some());
    let plan = object_write(&Blob::deserialize(b"x"), false).unwrap();
    assert!(plan.to_create(false).is_none());
}

#[test]
fn outcome_of_a_write() {
    let digest = Digest::of(b"blob 6\0hello\n");
    let kept = write_outcome(digest, true, Some(vec![1, 2, 3])).unwrap();
    assert_eq!(kept.digest, digest);
    let file = kept.file.unwrap();
    assert_eq!(file.path, "objects/ce/013625030ba8dba906f756967f9e9ca394464a");
    assert_eq!(file.contents, vec![1, 2, 3]);
    assert_eq!(write_outcome(digest, true, None).err(), Some(StoreError::Io));
    let dry = write_outcome(digest, false, None).unwrap();
    assert_eq!(dry.digest, digest);
    assert!(dry.file.is_none());
    assert!(write_outcome(digest, false, Some(vec![1])).unwrap().file.is_none());
}

#[test]
fn path_of_a_key() {
    let digest = Digest::from_hex("00ff16c9c14e2652b22f8b78bb08a5a07930c1AB").unwrap();
    assert_eq!(object_file(&digest), "objects/00/ff16c9c14e2652b22f8b78bb08a5a07930c1ab");
    assert_eq!(object_file(&digest).len(), 8 + 2 + 1 + 38);
}

#[test]
fn hash_of_each_kind() {
    let blob = object_hash(b"hello\n", ObjectType::Blob, true).unwrap();
    assert_eq!(blob.digest.to_hex(), HELLO);
    assert!(blob.file.is_some());
    let commit = object_hash(b"tree abc\n\nm", ObjectType::Commit, false).unwrap();
    assert_eq!(commit.digest, Digest::of(b"commit 11\0tree abc\n\nm"));
    let tag = object_hash(b"tree abc\n\nm", ObjectType::Tag, false).unwrap();
    assert_eq!(tag.digest, Digest::of(b"tag 11\0tree abc\n\nm"));
    let tree = object_hash(b"", ObjectType::Tree, false).unwrap();
    assert_eq!(tree.digest.to_hex(), "4b825dc642cb6eb9a060e54bf8d69288fbee4904");
}

#[test]
fn hash_of_a_malformed_payload() {
    assert_eq!(
        object_hash(b"hello\n", ObjectType::Tree, false).err(),
        Some(StoreError::Format(FormatError::BadMode))
    );
    assert_eq!(
        object_hash(b"hello\n", ObjectType::Commit, true).err(),
        Some(StoreError::Format(FormatError::MissingTerminator))
    );
    assert_eq!(
        object_hash(b"\xff", ObjectType::Tag, true).err(),
        Some(StoreError::Format(FormatError::BadUtf8))
    );
}

#[test]
fn every_kind_is_stored_and_read_back() {
    let mut tree = b"100644 a.txt\0".to_vec();
    tree.extend_from_slice(Digest::from_hex(HELLO).unwrap().as_bytes());
    let cases: Vec<(ObjectType, Vec<u8>)> = vec![
        (ObjectType::Blob, vec![0, 1, 2, 255]),
        (ObjectType::Commit, b"tree abc\nparent d\n e\n\nmsg\n".to_vec()),
        (ObjectType::Tag, b"object abc\n\nv1\n".to_vec()),
        (ObjectType::Tree, tree),
    ];
    for (kind, payload) in cases {
        let plan = object_hash(&payload, kind, true).unwrap();
        let file = plan.file.unwrap();
        assert_eq!(file.path, object_file(&plan.digest));
        let read = object_read(Some(&file.contents)).unwrap();
        assert_eq!(read.kind(), kind);
        assert_eq!(read.serialize(), payload);
        let again = object_write(&read, false).unwrap();
        assert_eq!(again.digest, plan.digest);
    }
}

#[test]
fn names_resolve_to_themselves() {
    assert_eq!(object_find(HELLO, None, true), Ok(HELLO));
    assert_eq!(object_find("HEAD", Some(ObjectType::Commit), false), Ok("HEAD"));
    assert_eq!(object_find("ce01", Some(ObjectType::Tree), true), Ok("ce01"));
    assert_eq!(object_find("", None, false), Ok(""));
}

#[test]
fn kept_write_succeeds_again() {
    let blob = Blob::deserialize(b"kept twice");
    let first = object_write(&blob, true);
    let second = object_write(&blob, true);
    assert!(first.is_ok());
    assert_eq!(first, second);
    let dry = object_write(&blob, false).unwrap();
    assert_eq!(dry.digest, first.unwrap().digest);
}

#[test]
fn hash_takes_payloads_with_room_for_the_header() {
    assert_eq!(wyag::store::FRAME_HEADER_ROOM, 32);
    let data = vec![b'x'; 100_000];
    let plan = object_hash(&data, ObjectType::Blob, true).unwrap();
    let mut raw = b"blob 100000\0".to_vec();
    raw.extend_from_slice(&data);
    assert_eq!(plan.digest, Digest::of(&raw));
    assert_eq!(wyag::codec::decompress(&plan.file.unwrap().contents), Ok(raw));
}
