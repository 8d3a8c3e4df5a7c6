//! The object model: blobs, trees, commits and tags, what each holds, and how
//! a payload is read into an object and written back.

use vstd::prelude::*;
use vstd::string::StringSliceAdditionalSpecFns;
use vstd::utf8::valid_utf8;
use crate::bytes::copy_range;
use crate::error::FormatError;
use crate::kind::ObjectType;
use crate::kvlm::byte_strings;
use crate::kvlm::kvlm_bytes;
use crate::kvlm::kvlm_parse;
use crate::kvlm::kvlm_serializie;
use crate::kvlm::kvlm_wf;
use crate::kvlm::lemma_kvlm_bytes_of_parsed;
use crate::kvlm::lemma_kvlm_round_trip;
use crate::kvlm::lookup;
use crate::kvlm::parse_kvlm;
use crate::kvlm::KvField;
use crate::kvlm::Kvlm;
use crate::kvlm::KvlmView;
use crate::text::is_utf8;
use crate::tree::lemma_parse_tree_wf;
use crate::tree::lemma_tree_round_trip;
use crate::tree::parse_tree;
use crate::tree::tree_bytes;
use crate::tree::tree_wf;
use crate::tree::LeafView;
use crate::tree::Tree;

verus! {

/// What an object holds, whatever its kind.
pub ghost enum ObjectView {
    Commit(KvlmView),
    Tag(KvlmView),
    Tree(Seq<LeafView>),
    Blob(Seq<u8>),
}

/// The kind of an object.
pub open spec fn object_kind(object: ObjectView) -> ObjectType {
    match object {
        ObjectView::Commit(_) => ObjectType::Commit,
        ObjectView::Tag(_) => ObjectType::Tag,
        ObjectView::Tree(_) => ObjectType::Tree,
        ObjectView::Blob(_) => ObjectType::Blob,
    }
}

/// The payload of an object: what `serialize` writes.
pub open spec fn object_payload(object: ObjectView) -> Seq<u8> {
    match object {
        ObjectView::Commit(kvlm) => kvlm_bytes(kvlm),
        ObjectView::Tag(kvlm) => kvlm_bytes(kvlm),
        ObjectView::Tree(leaves) => tree_bytes(leaves),
        ObjectView::Blob(data) => data,
    }
}

/// True for the key-value list of a commit or a tag that is read back as it
/// was written: the list is well formed and its payload is UTF-8.
pub open spec fn text_wf(kvlm: KvlmView) -> bool {
    kvlm_wf(kvlm) && valid_utf8(kvlm_bytes(kvlm))
}

/// True for an object that is read back as it was written. A blob always
/// is; a tree is when its leaves are well formed; a commit or a tag is when
/// its list is well formed and its payload is UTF-8.
pub open spec fn object_wf(object: ObjectView) -> bool {
    match object {
        ObjectView::Commit(kvlm) => text_wf(kvlm),
        ObjectView::Tag(kvlm) => text_wf(kvlm),
        ObjectView::Tree(leaves) => tree_wf(leaves),
        ObjectView::Blob(_) => true,
    }
}

/// The key-value list that the payload of a commit or a tag holds. The
/// payload has to be UTF-8.
pub open spec fn parse_text(payload: Seq<u8>) -> Result<KvlmView, FormatError> {
    if valid_utf8(payload) {
        parse_kvlm(payload)
    } else {
        Err(FormatError::BadUtf8)
    }
}

/// The object of the given kind that a payload holds.
pub open spec fn parse_object(kind: ObjectType, payload: Seq<u8>) -> Result<
    ObjectView,
    FormatError,
> {
    match kind {
        ObjectType::Commit => match parse_text(payload) {
            Ok(kvlm) => Ok(ObjectView::Commit(kvlm)),
            Err(e) => Err(e),
        },
        ObjectType::Tag => match parse_text(payload) {
            Ok(kvlm) => Ok(ObjectView::Tag(kvlm)),
            Err(e) => Err(e),
        },
        ObjectType::Tree => match parse_tree(payload) {
            Ok(leaves) => Ok(ObjectView::Tree(leaves)),
            Err(e) => Err(e),
        },
        ObjectType::Blob => Ok(ObjectView::Blob(payload)),
    }
}

/// A well-formed object that is written and read comes back as it was.
pub proof fn lemma_object_round_trip(object: ObjectView)
    requires
        object_wf(object),
    ensures
        parse_object(object_kind(object), object_payload(object)) == Ok::<
            ObjectView,
            FormatError,
        >(object),
{
    match object {
        ObjectView::Commit(kvlm) => {
            lemma_kvlm_round_trip(kvlm);
        },
        ObjectView::Tag(kvlm) => {
            lemma_kvlm_round_trip(kvlm);
        },
        ObjectView::Tree(leaves) => {
            lemma_tree_round_trip(leaves);
        },
        ObjectView::Blob(_) => {},
    }
}

/// An object that was read from a payload is of the kind asked for and well
/// formed.
pub proof fn lemma_parsed_object_wf(kind: ObjectType, payload: Seq<u8>)
    ensures
        parse_object(kind, payload) matches Ok(object) ==> object_kind(object) == kind
            && object_wf(object),
{
    match kind {
        ObjectType::Commit => {
            lemma_kvlm_bytes_of_parsed(payload);
        },
        ObjectType::Tag => {
            lemma_kvlm_bytes_of_parsed(payload);
        },
        ObjectType::Tree => {
            lemma_parse_tree_wf(payload);
        },
        ObjectType::Blob => {},
    }
}

/// Reading a payload, writing the object and reading what was written gives
/// the object of the first reading.
pub proof fn lemma_object_reparse(kind: ObjectType, payload: Seq<u8>)
    ensures
        parse_object(kind, payload) matches Ok(object) ==> parse_object(
            kind,
            object_payload(object),
        ) == parse_object(kind, payload),
{
    lemma_parsed_object_wf(kind, payload);
    if let Ok(object) = parse_object(kind, payload) {
        lemma_object_round_trip(object);
    }
}

/// A commit, a tag or a blob that was read is written back byte for byte.
pub proof fn lemma_payload_of_parsed(kind: ObjectType, payload: Seq<u8>)
    requires
        kind != ObjectType::Tree,
    ensures
        parse_object(kind, payload) matches Ok(object) ==> object_payload(object) == payload,
{
    lemma_kvlm_bytes_of_parsed(payload);
}

/// What every object can do: write its payload, name its kind, and hand
/// itself out as one of the four kinds.
pub trait Object {
    /// What the object holds.
    spec fn model(&self) -> ObjectView;

    /// The object's payload.
    fn serialize(&self) -> (out: Vec<u8>)
        ensures
            out@ == object_payload(self.model()),
    ;

    /// The name of the object's kind.
    fn fmt_header(&self) -> (name: &'static str)
        ensures
            name@ == object_kind(self.model()).name(),
    ;

    /// A copy of the object as one of the four kinds.
    fn get_specific(&self) -> (object: ObjectSelect)
        ensures
            object@ == self.model(),
    ;
}

/// A blob: bytes without structure.
#[derive(Debug, PartialEq, Eq)]
pub struct Blob {
    pub data: Vec<u8>,
}

impl View for Blob {
    type V = Seq<u8>;

    open spec fn view(&self) -> Seq<u8> {
        self.data@
    }
}

impl Clone for Blob {
    fn clone(&self) -> (copy: Blob)
        ensures
            copy@ == self@,
    {
        Blob::deserialize(self.data.as_slice())
    }
}

impl Blob {
    /// The blob whose payload is `bytes`.
    pub fn deserialize(bytes: &[u8]) -> (blob: Blob)
        ensures
            blob@ == bytes@,
    {
        let data = copy_range(bytes, 0, bytes.len());
        assert(data@ =~= bytes@);
        Blob { data }
    }
}

impl Object for Blob {
    open spec fn model(&self) -> ObjectView {
        ObjectView::Blob(self@)
    }

    fn serialize(&self) -> (out: Vec<u8>) {
        let out = copy_range(self.data.as_slice(), 0, self.data.len());
        assert(out@ =~= self.data@);
        out
    }

    fn fmt_header(&self) -> (name: &'static str) {
        ObjectType::Blob.fmt_header()
    }

    fn get_specific(&self) -> (object: ObjectSelect) {
        ObjectSelect::Blob(self.clone())
    }
}

/// A commit: a key-value list with a message.
#[derive(Debug, PartialEq, Eq)]
pub struct Commit {
    pub inner: Kvlm,
}

impl View for Commit {
    type V = KvlmView;

    open spec fn view(&self) -> KvlmView {
        self.inner@
    }
}

impl Clone for Commit {
    fn clone(&self) -> (copy: Commit)
        ensures
            copy@ == self@,
    {
        Commit { inner: self.inner.clone() }
    }
}

/// Reads the payload of a commit or a tag.
fn text_deserialize(bytes: &[u8]) -> (r: Result<Kvlm, FormatError>)
    ensures
        match r {
            Ok(kvlm) => parse_text(bytes@) == Ok::<KvlmView, FormatError>(kvlm@) && kvlm.wf()
                && valid_utf8(kvlm_bytes(kvlm@)),
            Err(e) => parse_text(bytes@) == Err::<KvlmView, FormatError>(e),
        },
{
    if !is_utf8(bytes) {
        return Err(FormatError::BadUtf8);
    }
    proof {
        lemma_kvlm_bytes_of_parsed(bytes@);
    }
    kvlm_parse(bytes)
}

/// A key-value list of the given fields and message, where it makes a
/// well-formed commit or tag.
fn text_new(fields: Vec<KvField>, message: Vec<u8>) -> (r: Option<Kvlm>)
    ensures
        r is Some <==> text_wf(
            KvlmView { fields: fields@.map_values(|f: KvField| f@), message: message@ },
        ),
        r matches Some(kvlm) ==> kvlm.fields == fields && kvlm.message == message,
{
    match Kvlm::new(fields, message) {
        Some(kvlm) => {
            let payload = kvlm_serializie(&kvlm);
            if is_utf8(payload.as_slice()) {
                Some(kvlm)
            } else {
                None
            }
        },
        None => None,
    }
}

impl Commit {
    /// A commit of the given fields and message; `None` unless it is well
    /// formed: no key holds a space or a newline, only the first key may be
    /// empty, and the payload is UTF-8.
    pub fn new(fields: Vec<KvField>, message: Vec<u8>) -> (r: Option<Commit>)
        ensures
            r is Some <==> text_wf(
                KvlmView { fields: fields@.map_values(|f: KvField| f@), message: message@ },
            ),
            r matches Some(commit) ==> commit.inner.fields == fields && commit.inner.message
                == message,
    {
        match text_new(fields, message) {
            Some(inner) => Some(Commit { inner }),
            None => None,
        }
    }

    /// The commit that a payload holds.
    pub fn deserialize(bytes: &[u8]) -> (r: Result<Commit, FormatError>)
        ensures
            match r {
                Ok(commit) => parse_text(bytes@) == Ok::<KvlmView, FormatError>(commit@)
                    && object_wf(commit.model()),
                Err(e) => parse_text(bytes@) == Err::<KvlmView, FormatError>(e),
            },
    {
        match text_deserialize(bytes) {
            Ok(inner) => Ok(Commit { inner }),
            Err(e) => Err(e),
        }
    }

    /// The values stored under `key`, in the order of the payload; the
    /// message alone under the key `message`. `None` for a key that the
    /// commit does not have.
    pub fn get(&self, key: &str) -> (r: Option<Vec<Vec<u8>>>)
        ensures
            match r {
                Some(values) => lookup(self@, key.spec_bytes()) == Some(byte_strings(values@)),
                None => lookup(self@, key.spec_bytes()) is None,
            },
    {
        self.inner.get(key.as_bytes())
    }
}

impl Object for Commit {
    open spec fn model(&self) -> ObjectView {
        ObjectView::Commit(self@)
    }

    fn serialize(&self) -> (out: Vec<u8>) {
        kvlm_serializie(&self.inner)
    }

    fn fmt_header(&self) -> (name: &'static str) {
        ObjectType::Commit.fmt_header()
    }

    fn get_specific(&self) -> (object: ObjectSelect) {
        ObjectSelect::Commit(self.clone())
    }
}

/// A tag: a key-value list with a message, as a commit is.
#[derive(Debug, PartialEq, Eq)]
pub struct Tag {
    pub inner: Kvlm,
}

impl View for Tag {
    type V = KvlmView;

    open spec fn view(&self) -> KvlmView {
        self.inner@
    }
}

impl Clone for Tag {
    fn clone(&self) -> (copy: Tag)
        ensures
            copy@ == self@,
    {
        Tag { inner: self.inner.clone() }
    }
}

impl Tag {
    /// A tag of the given fields and message; `None` unless it is well
    /// formed, as for a commit.
    pub fn new(fields: Vec<KvField>, message: Vec<u8>) -> (r: Option<Tag>)
        ensures
            r is Some <==> text_wf(
                KvlmView { fields: fields@.map_values(|f: KvField| f@), message: message@ },
            ),
            r matches Some(tag) ==> tag.inner.fields == fields && tag.inner.message == message,
    {
        match text_new(fields, message) {
            Some(inner) => Some(Tag { inner }),
            None => None,
        }
    }

    /// The tag that a payload holds.
    pub fn deserialize(bytes: &[u8]) -> (r: Result<Tag, FormatError>)
        ensures
            match r {
                Ok(tag) => parse_text(bytes@) == Ok::<KvlmView, FormatError>(tag@) && object_wf(
                    tag.model(),
                ),
                Err(e) => parse_text(bytes@) == Err::<KvlmView, FormatError>(e),
            },
    {
        match text_deserialize(bytes) {
            Ok(inner) => Ok(Tag { inner }),
            Err(e) => Err(e),
        }
    }

    /// The values stored under `key`, as for a commit.
    pub fn get(&self, key: &str) -> (r: Option<Vec<Vec<u8>>>)
        ensures
            match r {
                Some(values) => lookup(self@, key.spec_bytes()) == Some(byte_strings(values@)),
                None => lookup(self@, key.spec_bytes()) is None,
            },
    {
        self.inner.get(key.as_bytes())
    }
}

impl Object for Tag {
    open spec fn model(&self) -> ObjectView {
        ObjectView::Tag(self@)
    }

    fn serialize(&self) -> (out: Vec<u8>) {
        kvlm_serializie(&self.inner)
    }

    fn fmt_header(&self) -> (name: &'static str) {
        ObjectType::Tag.fmt_header()
    }

    fn get_specific(&self) -> (object: ObjectSelect) {
        ObjectSelect::Tag(self.clone())
    }
}

impl Object for Tree {
    open spec fn model(&self) -> ObjectView {
        ObjectView::Tree(self@)
    }

    fn serialize(&self) -> (out: Vec<u8>) {
        Tree::serialize(self)
    }

    fn fmt_header(&self) -> (name: &'static str) {
        ObjectType::Tree.fmt_header()
    }

    fn get_specific(&self) -> (object: ObjectSelect) {
        ObjectSelect::Tree(self.clone())
    }
}

/// An object of one of the four kinds.
#[derive(Debug, PartialEq, Eq)]
pub enum ObjectSelect {
    Commit(Commit),
    Tag(Tag),
    Tree(Tree),
    Blob(Blob),
}

impl View for ObjectSelect {
    type V = ObjectView;

    open spec fn view(&self) -> ObjectView {
        match self {
            ObjectSelect::Commit(commit) => ObjectView::Commit(commit@),
            ObjectSelect::Tag(tag) => ObjectView::Tag(tag@),
            ObjectSelect::Tree(tree) => ObjectView::Tree(tree@),
            ObjectSelect::Blob(blob) => ObjectView::Blob(blob@),
        }
    }
}

impl Clone for ObjectSelect {
    fn clone(&self) -> (copy: ObjectSelect)
        ensures
            copy@ == self@,
    {
        match self {
            ObjectSelect::Commit(commit) => ObjectSelect::Commit(commit.clone()),
            ObjectSelect::Tag(tag) => ObjectSelect::Tag(tag.clone()),
            ObjectSelect::Tree(tree) => ObjectSelect::Tree(tree.clone()),
            ObjectSelect::Blob(blob) => ObjectSelect::Blob(blob.clone()),
        }
    }
}

impl ObjectSelect {
    /// Reads a payload as an object of the given kind.
    pub fn deserialize(kind: ObjectType, bytes: &[u8]) -> (r: Result<ObjectSelect, FormatError>)
        ensures
            match r {
                Ok(object) => parse_object(kind, bytes@) == Ok::<ObjectView, FormatError>(object@)
                    && object_wf(object@),
                Err(e) => parse_object(kind, bytes@) == Err::<ObjectView, FormatError>(e),
            },
    {
        match kind {
            ObjectType::Commit => match Commit::deserialize(bytes) {
                Ok(commit) => Ok(ObjectSelect::Commit(commit)),
                Err(e) => Err(e),
            },
            ObjectType::Tag => match Tag::deserialize(bytes) {
                Ok(tag) => Ok(ObjectSelect::Tag(tag)),
                Err(e) => Err(e),
            },
            ObjectType::Tree => match Tree::deserialize(bytes) {
                Ok(tree) => Ok(ObjectSelect::Tree(tree)),
                Err(e) => Err(e),
            },
            ObjectType::Blob => Ok(ObjectSelect::Blob(Blob::deserialize(bytes))),
        }
    }

    /// The object's kind.
    pub fn kind(&self) -> (kind: ObjectType)
        ensures
            kind == object_kind(self@),
    {
        match self {
            ObjectSelect::Commit(_) => ObjectType::Commit,
            ObjectSelect::Tag(_) => ObjectType::Tag,
            ObjectSelect::Tree(_) => ObjectType::Tree,
            ObjectSelect::Blob(_) => ObjectType::Blob,
        }
    }
}

impl Object for ObjectSelect {
    open spec fn model(&self) -> ObjectView {
        self@
    }

    fn serialize(&self) -> (out: Vec<u8>) {
        match self {
            ObjectSelect::Commit(commit) => commit.serialize(),
            ObjectSelect::Tag(tag) => tag.serialize(),
            ObjectSelect::Tree(tree) => Tree::serialize(tree),
            ObjectSelect::Blob(blob) => blob.serialize(),
        }
    }

    fn fmt_header(&self) -> (name: &'static str) {
        self.kind().fmt_header()
    }

    fn get_specific(&self) -> (object: ObjectSelect) {
        self.clone()
    }
}

} // verus!
