//! The object store's side of reading and writing: frames, keys and paths.
//!
//! An object is stored as its frame, deflated: the kind's tag, a space, the
//! payload's length in decimal, a NUL and the payload. Its key is the SHA-1
//! of the frame, and its file stands at `objects/`, the first two digits of
//! the key, `/`, and the other thirty-eight. The files themselves are read
//! and written by the caller; what they hold and where is decided here.

use vstd::prelude::*;
use vstd::slice::slice_subrange;
use vstd::string::StringSliceAdditionalSpecFns;
use crate::bytes::append;
use crate::bytes::append_range;
use crate::bytes::find_byte;
use crate::bytes::index_of;
use crate::bytes::lemma_find_byte;
use crate::bytes::lemma_find_byte_is;
use crate::bytes::NUL;
use crate::bytes::SPACE;
use crate::codec::hashable_len;
use crate::codec::sha1_of;
use crate::codec::zlib_compress;
use crate::codec::zlib_decompress;
use crate::codec::zlib_deflated;
use crate::codec::zlib_inflated;
use crate::codec::Digest;
use crate::codec::DIGEST_LEN;
use crate::decimal::all_digits;
use crate::decimal::decimal;
use crate::decimal::decimal_value;
use crate::decimal::digits_only;
use crate::decimal::is_digit;
use crate::decimal::lemma_decimal;
use crate::decimal::lemma_decimal_len;
use crate::decimal::pow10;
use crate::decimal::parse_decimal;
use crate::decimal::write_decimal;
use crate::error::FormatError;
use crate::error::ResolveError;
use crate::error::StoreError;
use crate::hex::hex_encode;
use crate::hex::write_hex;
use crate::kind::lemma_names;
use crate::kind::lemma_tag_len;
use crate::text::text_bytes;
use crate::kind::ObjectType;
use crate::object::lemma_object_round_trip;
use crate::object::lemma_parsed_object_wf;
use crate::object::lemma_payload_of_parsed;
use crate::object::object_kind;
use crate::object::object_payload;
use crate::object::object_wf;
use crate::object::parse_object;
use crate::object::Object;
use crate::object::ObjectSelect;
use crate::object::ObjectView;
use crate::text::ascii_string;
use crate::text::ascii_text;
use crate::tree::lemma_tree_bytes_len;

verus! {

/// The frame of a payload of the given kind.
pub open spec fn frame(kind: ObjectType, payload: Seq<u8>) -> Seq<u8> {
    kind.tag() + seq![SPACE] + decimal(payload.len()) + seq![NUL] + payload
}

/// The frame of an object.
pub open spec fn object_frame(object: ObjectView) -> Seq<u8> {
    frame(object_kind(object), object_payload(object))
}

/// The key of an object: the digest of its frame.
pub open spec fn object_id(object: ObjectView) -> Seq<u8> {
    sha1_of(object_frame(object))
}

/// The kind and the payload that a frame holds.
///
/// The tag ends at the first space and the header at the first NUL, which
/// has to come after the space. Between them stands the declared length, in
/// digits alone. A header that cannot be read is `Corrupt`. A declared
/// length other than the number of bytes after the NUL is `SizeMismatch`,
/// whatever the tag. A tag that names none of the four kinds is
/// `UnknownKind`.
pub open spec fn parse_frame(raw: Seq<u8>) -> Result<(ObjectType, Seq<u8>), StoreError> {
    let space = find_byte(raw, SPACE, 0);
    let nul = find_byte(raw, NUL, 0);
    let declared = raw.subrange(space + 1, nul);
    if space >= raw.len() || nul >= raw.len() || nul < space {
        Err(StoreError::Corrupt)
    } else if declared.len() == 0 || !all_digits(declared) {
        Err(StoreError::Corrupt)
    } else if decimal_value(declared) != raw.len() - nul - 1 {
        Err(StoreError::SizeMismatch)
    } else {
        match ObjectType::of_tag(raw.subrange(0, space)) {
            Some(kind) => Ok((kind, raw.skip(nul + 1))),
            None => Err(StoreError::UnknownKind),
        }
    }
}

/// The object that a frame holds.
pub open spec fn read_frame(raw: Seq<u8>) -> Result<ObjectView, StoreError> {
    match parse_frame(raw) {
        Ok((kind, payload)) => match parse_object(kind, payload) {
            Ok(object) => Ok(object),
            Err(e) => Err(StoreError::Format(e)),
        },
        Err(e) => Err(e),
    }
}

/// The object that a stored file holds, given what the file inflates to.
pub open spec fn read_inflated(inflated: Option<Seq<u8>>) -> Result<ObjectView, StoreError> {
    match inflated {
        Some(raw) => read_frame(raw),
        None => Err(StoreError::Corrupt),
    }
}

/// The object stored under a key, given the bytes of its file, if there is
/// one.
pub open spec fn read_stored(stored: Option<Seq<u8>>) -> Result<ObjectView, StoreError> {
    match stored {
        Some(bytes) => read_inflated(zlib_inflated(bytes)),
        None => Err(StoreError::NotFound),
    }
}

/// The path of the file that holds the object with the given key, below the
/// store's root.
pub open spec fn object_path(digest: Seq<u8>) -> Seq<u8> {
    text_bytes("objects/"@) + hex_encode(digest).subrange(0, 2) + seq![0x2fu8] + hex_encode(
        digest,
    ).skip(2)
}

/// A frame that is built and read gives its kind and payload back.
pub proof fn lemma_frame_round_trip(kind: ObjectType, payload: Seq<u8>)
    ensures
        parse_frame(frame(kind, payload)) == Ok::<(ObjectType, Seq<u8>), StoreError>(
            (kind, payload),
        ),
{
    let raw = frame(kind, payload);
    let tag = kind.tag();
    let digits = decimal(payload.len());
    let space = tag.len() as int;
    let nul = space + 1 + digits.len();
    lemma_names();
    lemma_decimal(payload.len());
    assert forall|i: int| 0 <= i < space implies raw[i] != SPACE && raw[i] != NUL by {
        assert(raw[i] == tag[i]);
        assert(tag.contains(tag[i]));
    }
    assert(raw[space] == SPACE);
    lemma_find_byte_is(raw, SPACE, 0, space);
    assert forall|i: int| 0 <= i < nul implies raw[i] != NUL by {
        if i > space {
            assert(raw[i] == digits[i - space - 1]);
            assert(is_digit(digits[i - space - 1]));
        }
    }
    assert(raw[nul] == NUL);
    lemma_find_byte_is(raw, NUL, 0, nul);
    assert(raw.subrange(space + 1, nul) =~= digits);
    assert(raw.subrange(0, space) =~= tag);
    assert(raw.skip(nul + 1) =~= payload);
}

/// A well-formed object's frame reads back as the object, and so does any
/// file that inflates to the frame.
pub proof fn lemma_store_round_trip(object: ObjectView, stored: Seq<u8>)
    requires
        object_wf(object),
        zlib_inflated(stored) == Some(object_frame(object)),
    ensures
        read_frame(object_frame(object)) == Ok::<ObjectView, StoreError>(object),
        read_stored(Some(stored)) == Ok::<ObjectView, StoreError>(object),
{
    lemma_frame_round_trip(object_kind(object), object_payload(object));
    lemma_object_round_trip(object);
}

/// A frame whose header can be read and whose declared length is not the
/// length of what follows the header fails with `SizeMismatch`; no object is
/// read from it, whatever its tag and its payload.
pub proof fn lemma_size_mismatch(tag: Seq<u8>, declared: Seq<u8>, payload: Seq<u8>)
    requires
        forall|i: int| 0 <= i < tag.len() ==> tag[i] != SPACE && tag[i] != NUL,
        declared.len() > 0,
        all_digits(declared),
        decimal_value(declared) != payload.len(),
    ensures
        read_frame(tag + seq![SPACE] + declared + seq![NUL] + payload) == Err::<
            ObjectView,
            StoreError,
        >(StoreError::SizeMismatch),
{
    let raw = tag + seq![SPACE] + declared + seq![NUL] + payload;
    let space = tag.len() as int;
    let nul = space + 1 + declared.len();
    assert forall|i: int| 0 <= i < space implies raw[i] != SPACE by {
        assert(raw[i] == tag[i]);
    }
    assert(raw[space] == SPACE);
    lemma_find_byte_is(raw, SPACE, 0, space);
    assert forall|i: int| 0 <= i < nul implies raw[i] != NUL by {
        if i < space {
            assert(raw[i] == tag[i]);
        } else if i > space {
            assert(raw[i] == declared[i - space - 1]);
            assert(is_digit(declared[i - space - 1]));
        }
    }
    assert(raw[nul] == NUL);
    lemma_find_byte_is(raw, NUL, 0, nul);
    assert(raw.subrange(space + 1, nul) =~= declared);
}

/// Objects with the same kind and payload have the same frame, the same key
/// and the same path.
pub proof fn lemma_content_addressing(a: ObjectView, b: ObjectView)
    requires
        object_kind(a) == object_kind(b),
        object_payload(a) == object_payload(b),
    ensures
        object_frame(a) == object_frame(b),
        object_id(a) == object_id(b),
        object_path(object_id(a)) == object_path(object_id(b)),
{
}

/// Room for the header of a frame: the longest tag, the two separators and
/// the digits of any length that the hasher takes.
pub const FRAME_HEADER_ROOM: usize = 32;

/// A frame is longer than its payload by the header's room at most, as long
/// as the hasher takes that many bytes.
pub proof fn lemma_header_room(kind: ObjectType, payload: Seq<u8>)
    requires
        hashable_len(payload.len() + FRAME_HEADER_ROOM as nat),
    ensures
        frame(kind, payload).len() <= payload.len() + FRAME_HEADER_ROOM,
        hashable_len(frame(kind, payload).len()),
{
    lemma_tag_len();
    assert(pow10(20) == 100_000_000_000_000_000_000nat) by {
        reveal_with_fuel(pow10, 21);
    }
    lemma_decimal_len(payload.len(), 20);
}

/// The object that is read from a payload has a frame that is longer than
/// the payload by the header's room at most.
pub proof fn lemma_frame_room(kind: ObjectType, data: Seq<u8>)
    requires
        hashable_len(data.len() + FRAME_HEADER_ROOM as nat),
    ensures
        parse_object(kind, data) matches Ok(object) ==> object_frame(object).len() <= data.len()
            + FRAME_HEADER_ROOM && hashable_len(object_frame(object).len()),
{
    if let Ok(object) = parse_object(kind, data) {
        lemma_parsed_object_wf(kind, data);
        let payload = object_payload(object);
        assert(payload.len() <= data.len()) by {
            match kind {
                ObjectType::Tree => {
                    lemma_tree_bytes_len(data);
                },
                _ => {
                    lemma_payload_of_parsed(kind, data);
                },
            }
        }
        lemma_header_room(kind, payload);
    }
}

/// Builds a frame from a tag and a payload.
fn frame_with(tag: &[u8], payload: &[u8]) -> (raw: Vec<u8>)
    ensures
        raw@ == tag@ + seq![SPACE] + decimal(payload@.len()) + seq![NUL] + payload@,
{
    let mut raw: Vec<u8> = Vec::new();
    append(&mut raw, tag);
    raw.push(SPACE);
    write_decimal(&mut raw, payload.len());
    raw.push(NUL);
    append(&mut raw, payload);
    raw
}

/// Builds the frame of a payload.
pub fn frame_of(kind: ObjectType, payload: &[u8]) -> (raw: Vec<u8>)
    ensures
        raw@ == frame(kind, payload@),
{
    frame_with(kind.header_bytes(), payload)
}

/// Reads the header of a frame: the kind, and where the payload starts.
pub fn frame_parse(raw: &[u8]) -> (r: Result<(ObjectType, usize), StoreError>)
    ensures
        match r {
            Ok((kind, start)) => start == find_byte(raw@, NUL, 0) + 1 && start <= raw@.len()
                && parse_frame(raw@) == Ok::<(ObjectType, Seq<u8>), StoreError>(
                (kind, raw@.skip(start as int)),
            ),
            Err(e) => parse_frame(raw@) == Err::<(ObjectType, Seq<u8>), StoreError>(e),
        },
{
    let space = index_of(raw, SPACE, 0);
    let nul = index_of(raw, NUL, 0);
    proof {
        lemma_find_byte(raw@, SPACE, 0);
        lemma_find_byte(raw@, NUL, 0);
    }
    if space >= raw.len() || nul >= raw.len() || nul < space {
        return Err(StoreError::Corrupt);
    }
    if space + 1 >= nul || !digits_only(raw, space + 1, nul) {
        return Err(StoreError::Corrupt);
    }
    match parse_decimal(raw, space + 1, nul) {
        Some(declared) => {
            if declared != raw.len() - nul - 1 {
                return Err(StoreError::SizeMismatch);
            }
        },
        None => {
            return Err(StoreError::SizeMismatch);
        },
    }
    match ObjectType::from_tag(slice_subrange(raw, 0, space)) {
        Some(kind) => Ok((kind, nul + 1)),
        None => Err(StoreError::UnknownKind),
    }
}

/// Reads the object that a frame holds.
pub fn object_decode(raw: &[u8]) -> (r: Result<ObjectSelect, StoreError>)
    ensures
        match r {
            Ok(object) => read_frame(raw@) == Ok::<ObjectView, StoreError>(object@) && object_wf(
                object@,
            ),
            Err(e) => read_frame(raw@) == Err::<ObjectView, StoreError>(e),
        },
{
    let (kind, start) = match frame_parse(raw) {
        Ok(header) => header,
        Err(e) => {
            return Err(e);
        },
    };
    let payload = slice_subrange(raw, start, raw.len());
    assert(payload@ =~= raw@.skip(start as int));
    match ObjectSelect::deserialize(kind, payload) {
        Ok(object) => Ok(object),
        Err(e) => Err(StoreError::Format(e)),
    }
}

/// Reads the object that a stored file holds, given what the file inflated
/// to, if it did inflate.
pub fn object_inflated(inflated: Option<Vec<u8>>) -> (r: Result<ObjectSelect, StoreError>)
    ensures
        match r {
            Ok(object) => read_inflated(
                match inflated {
                    Some(raw) => Some(raw@),
                    None => None,
                },
            ) == Ok::<ObjectView, StoreError>(object@) && object_wf(object@),
            Err(e) => read_inflated(
                match inflated {
                    Some(raw) => Some(raw@),
                    None => None,
                },
            ) == Err::<ObjectView, StoreError>(e),
        },
{
    match inflated {
        Some(raw) => object_decode(raw.as_slice()),
        None => Err(StoreError::Corrupt),
    }
}

/// Reads the object stored under a key from the bytes of its file; `None`
/// stands for a file that does not exist.
pub fn object_read(stored: Option<&[u8]>) -> (r: Result<ObjectSelect, StoreError>)
    ensures
        match r {
            Ok(object) => read_stored(
                match stored {
                    Some(bytes) => Some(bytes@),
                    None => None,
                },
            ) == Ok::<ObjectView, StoreError>(object@) && object_wf(object@),
            Err(e) => read_stored(
                match stored {
                    Some(bytes) => Some(bytes@),
                    None => None,
                },
            ) == Err::<ObjectView, StoreError>(e),
        },
{
    match stored {
        Some(bytes) => object_inflated(zlib_decompress(bytes)),
        None => Err(StoreError::NotFound),
    }
}

/// Resolves a name to the name of an object. Every name stands for itself:
/// abbreviated digests and references are not resolved.
pub fn object_find<'a>(name: &'a str, fmt: Option<ObjectType>, follow: bool) -> (r: Result<
    &'a str,
    ResolveError,
>)
    ensures
        r == Ok::<&str, ResolveError>(name),
{
    Ok(name)
}

/// The path of the file that holds the object with the given key, below the
/// store's root.
pub fn object_file(digest: &Digest) -> (path: String)
    ensures
        path@ == ascii_text(object_path(digest@)),
{
    let mut digits: Vec<u8> = Vec::new();
    write_hex(&mut digits, digest.as_bytes());
    let mut path: Vec<u8> = Vec::new();
    let prefix = "objects/";
    proof {
        reveal_strlit("objects/");
        vstd::string::is_ascii_spec_bytes(prefix);
    }
    append(&mut path, prefix.as_bytes());
    append_range(&mut path, digits.as_slice(), 0, 2);
    path.push(0x2f);
    append_range(&mut path, digits.as_slice(), 2, digits.len());
    assert(digits@.subrange(2, digits@.len() as int) =~= digits@.skip(2));
    ascii_string(path)
}

/// What a write hands to its caller: the object's key and, where the object
/// is to be kept, the path and the contents of its file.
#[derive(Debug, PartialEq, Eq)]
pub struct WritePlan {
    pub digest: Digest,
    pub file: Option<StoredFile>,
}

/// A file of the store.
#[derive(Debug, PartialEq, Eq)]
pub struct StoredFile {
    pub path: String,
    pub contents: Vec<u8>,
}

/// What a stored file holds: its path and its contents.
pub ghost struct FileView {
    pub path: Seq<char>,
    pub contents: Seq<u8>,
}

/// What a write plan holds.
pub ghost struct PlanView {
    pub digest: Seq<u8>,
    pub file: Option<FileView>,
}

impl View for StoredFile {
    type V = FileView;

    open spec fn view(&self) -> FileView {
        FileView { path: self.path@, contents: self.contents@ }
    }
}

impl View for WritePlan {
    type V = PlanView;

    open spec fn view(&self) -> PlanView {
        PlanView {
            digest: self.digest@,
            file: match self.file {
                Some(file) => Some(file@),
                None => None,
            },
        }
    }
}

/// What writing an object returns. The key is owed whenever nothing is to be
/// kept. Where the object is to be kept, the file at the object's path with
/// the deflated frame is owed unless the compressor reports an error for the
/// frame, which is then `Io`.
pub open spec fn write_result(object: ObjectView, persist: bool) -> Result<PlanView, StoreError> {
    if !persist {
        Ok(PlanView { digest: object_id(object), file: None })
    } else {
        match zlib_deflated(object_frame(object)) {
            Some(contents) => Ok(
                PlanView {
                    digest: object_id(object),
                    file: Some(
                        FileView { path: ascii_text(object_path(object_id(object))), contents },
                    ),
                },
            ),
            None => Err(StoreError::Io),
        }
    }
}

/// What hashing a payload as an object of the given kind returns: the error
/// of the payload where it is malformed, else what writing the object
/// returns.
pub open spec fn hash_result(kind: ObjectType, data: Seq<u8>, persist: bool) -> Result<
    PlanView,
    StoreError,
> {
    match parse_object(kind, data) {
        Ok(object) => write_result(object, persist),
        Err(e) => Err(StoreError::Format(e)),
    }
}

/// The files of a store after a write: a file that stands at the path
/// already is kept as it is, and a file is created only where none does.
pub open spec fn files_after_write(
    files: Map<Seq<char>, Seq<u8>>,
    path: Seq<char>,
    contents: Seq<u8>,
) -> Map<Seq<char>, Seq<u8>> {
    if files.contains_key(path) {
        files
    } else {
        files.insert(path, contents)
    }
}

/// The files of a store after the plan of a write was carried out.
pub open spec fn files_after(files: Map<Seq<char>, Seq<u8>>, plan: PlanView) -> Map<
    Seq<char>,
    Seq<u8>,
> {
    match plan.file {
        Some(file) => files_after_write(files, file.path, file.contents),
        None => files,
    }
}

/// After an object was written, one file stands at its path. Writing it
/// again, whatever the compressor returns that time, changes no file: the
/// store holds each object once, and a stored file is never overwritten.
pub proof fn lemma_write_once(
    files: Map<Seq<char>, Seq<u8>>,
    path: Seq<char>,
    first: Seq<u8>,
    second: Seq<u8>,
)
    ensures
        files_after_write(files, path, first).dom() == files.dom().insert(path),
        files_after_write(files_after_write(files, path, first), path, second)
            == files_after_write(files, path, first),
        files.contains_key(path) ==> files_after_write(files, path, first) == files,
        forall|other: Seq<char>|
            other != path && files.contains_key(other) ==> files_after_write(files, path, first)[other]
                == files[other],
{
    assert(files_after_write(files, path, first).dom() =~= files.dom().insert(path));
}

/// Objects of the same kind with the same payload get the same key from
/// every write that succeeds, kept or not, and the same file from every
/// write that keeps them.
pub proof fn lemma_write_same_content(a: ObjectView, b: ObjectView, keep_a: bool, keep_b: bool)
    requires
        object_kind(a) == object_kind(b),
        object_payload(a) == object_payload(b),
    ensures
        write_result(a, keep_a) matches Ok(first) ==> (write_result(b, keep_b) matches Ok(second)
            ==> first.digest == second.digest),
        write_result(a, keep_a) == write_result(b, keep_a),
        write_result(a, false) is Ok,
{
}

/// A kept write that follows a kept write of the same object succeeds as the
/// first did, with the same key. It creates no file and changes none: the
/// files are those after the first write, one of them at the object's path.
/// A file that stood at that path before the first write still holds what
/// it held.
pub proof fn lemma_write_again(files: Map<Seq<char>, Seq<u8>>, object: ObjectView)
    requires
        write_result(object, true) is Ok,
    ensures
        ({
            let plan = write_result(object, true)->Ok_0;
            let path = ascii_text(object_path(object_id(object)));
            let once = files_after(files, plan);
            &&& plan.digest == object_id(object)
            &&& plan.file is Some && plan.file->0.path == path
            &&& once.dom() == files.dom().insert(path)
            &&& files_after(once, plan) == once
            &&& files.contains_key(path) ==> once == files
            &&& !files.contains_key(path) ==> once[path] == plan.file->0.contents
        }),
{
    let plan = write_result(object, true)->Ok_0;
    let file = plan.file->0;
    lemma_write_once(files, file.path, file.contents, file.contents);
}

/// A kept write leaves what is stored at the object's path as it is: an
/// object that was read from the file there before the write is read from it
/// after the write.
pub proof fn lemma_write_keeps_stored(
    files: Map<Seq<char>, Seq<u8>>,
    object: ObjectView,
    stored: ObjectView,
)
    requires
        write_result(object, true) is Ok,
        files.contains_key(ascii_text(object_path(object_id(object)))),
        read_stored(Some(files[ascii_text(object_path(object_id(object)))])) == Ok::<
            ObjectView,
            StoreError,
        >(stored),
    ensures
        ({
            let path = ascii_text(object_path(object_id(object)));
            let after = files_after(files, write_result(object, true)->Ok_0);
            &&& after[path] == files[path]
            &&& read_stored(Some(after[path])) == Ok::<ObjectView, StoreError>(stored)
        }),
{
}

impl WritePlan {
    /// The file to create for this plan, given whether a file stands at its
    /// path already: none where the object is not to be kept, and none
    /// where it is stored already.
    pub fn to_create(self, present: bool) -> (file: Option<StoredFile>)
        ensures
            file == if present {
                None
            } else {
                self.file
            },
    {
        if present {
            None
        } else {
            self.file
        }
    }
}

/// The outcome of a write, given the key and what the compressor returned
/// for the frame; `None` stands for an error of the compressor.
pub fn write_outcome(digest: Digest, persist: bool, deflated: Option<Vec<u8>>) -> (r: Result<
    WritePlan,
    StoreError,
>)
    ensures
        match r {
            Ok(plan) => {
                &&& plan.digest == digest
                &&& match plan.file {
                    Some(file) => {
                        &&& persist
                        &&& deflated matches Some(bytes) && file.contents == bytes
                        &&& file.path@ == ascii_text(object_path(digest@))
                    },
                    None => !persist,
                }
            },
            Err(e) => persist && deflated is None && e == StoreError::Io,
        },
{
    if !persist {
        return Ok(WritePlan { digest, file: None });
    }
    match deflated {
        Some(contents) => {
            let path = object_file(&digest);
            Ok(WritePlan { digest, file: Some(StoredFile { path, contents }) })
        },
        None => Err(StoreError::Io),
    }
}

/// Computes an object's key and, where `persist` is set, the file to store
/// it in: what `write_result` says. The contents of a file that is returned
/// inflate to the object's frame.
pub fn object_write<T: Object>(object: &T, persist: bool) -> (r: Result<WritePlan, StoreError>)
    requires
        hashable_len(object_frame(object.model()).len()),
    ensures
        match r {
            Ok(plan) => {
                &&& write_result(object.model(), persist) == Ok::<PlanView, StoreError>(plan@)
                &&& plan.file matches Some(file) ==> zlib_inflated(file.contents@) == Some(
                    object_frame(object.model()),
                )
            },
            Err(e) => write_result(object.model(), persist) == Err::<PlanView, StoreError>(e),
        },
{
    let payload = object.serialize();
    let name = object.fmt_header();
    proof {
        lemma_names();
        vstd::string::is_ascii_spec_bytes(name);
    }
    let raw = frame_with(name.as_bytes(), payload.as_slice());
    let digest = Digest::of(raw.as_slice());
    let deflated = if persist {
        zlib_compress(raw.as_slice())
    } else {
        None
    };
    write_outcome(digest, persist, deflated)
}

/// Reads `data` as the payload of an object of the given kind and computes
/// the key of that object and, where `persist` is set, the file to store it
/// in: what `hash_result` says. The contents of a file that is returned
/// inflate to the object's frame.
pub fn object_hash(data: &[u8], kind: ObjectType, persist: bool) -> (r: Result<
    WritePlan,
    StoreError,
>)
    requires
        hashable_len(data@.len() + FRAME_HEADER_ROOM as nat),
    ensures
        match r {
            Ok(plan) => {
                &&& hash_result(kind, data@, persist) == Ok::<PlanView, StoreError>(plan@)
                &&& plan.file matches Some(file) ==> (parse_object(kind, data@) matches Ok(object)
                    && zlib_inflated(file.contents@) == Some(object_frame(object)))
            },
            Err(e) => hash_result(kind, data@, persist) == Err::<PlanView, StoreError>(e),
        },
{
    proof {
        lemma_frame_room(kind, data@);
    }
    match ObjectSelect::deserialize(kind, data) {
        Ok(object) => object_write(&object, persist),
        Err(e) => Err(StoreError::Format(e)),
    }
}

} // verus!
