//! The four kinds of object and their tags in a frame.

use vstd::prelude::*;
use vstd::string::StringExecFns;
use vstd::string::StringSliceAdditionalSpecFns;
use crate::bytes::bytes_eq;
use crate::bytes::NUL;
use crate::bytes::SPACE;
use crate::text::text_bytes;

verus! {

/// The kind of an object.
#[derive(Debug, Clone, Copy, PartialEq, Eq, Structural)]
pub enum ObjectType {
    Commit,
    Tag,
    Tree,
    Blob,
}

impl ObjectType {
    /// The kind's name as it is written in a frame and on the command line.
    pub open spec fn name(self) -> Seq<char> {
        match self {
            ObjectType::Commit => "commit"@,
            ObjectType::Tag => "tag"@,
            ObjectType::Tree => "tree"@,
            ObjectType::Blob => "blob"@,
        }
    }

    /// The bytes of the kind's name.
    pub open spec fn tag(self) -> Seq<u8> {
        text_bytes(self.name())
    }

    /// The kind that a tag names, if any.
    pub open spec fn of_tag(tag: Seq<u8>) -> Option<ObjectType> {
        if tag == ObjectType::Commit.tag() {
            Some(ObjectType::Commit)
        } else if tag == ObjectType::Tag.tag() {
            Some(ObjectType::Tag)
        } else if tag == ObjectType::Tree.tag() {
            Some(ObjectType::Tree)
        } else if tag == ObjectType::Blob.tag() {
            Some(ObjectType::Blob)
        } else {
            None
        }
    }

    /// The names of all kinds, in the order of the variants.
    pub fn variants() -> (names: &'static [&'static str])
        ensures
            names@.len() == 4,
            names@[0]@ == ObjectType::Commit.name(),
            names@[1]@ == ObjectType::Tag.name(),
            names@[2]@ == ObjectType::Tree.name(),
            names@[3]@ == ObjectType::Blob.name(),
    {
        let names: &'static [&'static str; 4] = &["commit", "tag", "tree", "blob"];
        names.as_slice()
    }

    /// The kind's name.
    pub fn fmt_header(self) -> (name: &'static str)
        ensures
            name@ == self.name(),
    {
        match self {
            ObjectType::Commit => "commit",
            ObjectType::Tag => "tag",
            ObjectType::Tree => "tree",
            ObjectType::Blob => "blob",
        }
    }

    /// The kind's tag.
    pub fn header_bytes(self) -> (tag: &'static [u8])
        ensures
            tag@ == self.tag(),
    {
        let name = self.fmt_header();
        proof {
            lemma_names();
            vstd::string::is_ascii_spec_bytes(name);
        }
        name.as_bytes()
    }

    /// The kind that `tag` names.
    pub fn from_tag(tag: &[u8]) -> (kind: Option<ObjectType>)
        ensures
            kind == ObjectType::of_tag(tag@),
    {
        if bytes_eq(tag, ObjectType::Commit.header_bytes()) {
            Some(ObjectType::Commit)
        } else if bytes_eq(tag, ObjectType::Tag.header_bytes()) {
            Some(ObjectType::Tag)
        } else if bytes_eq(tag, ObjectType::Tree.header_bytes()) {
            Some(ObjectType::Tree)
        } else if bytes_eq(tag, ObjectType::Blob.header_bytes()) {
            Some(ObjectType::Blob)
        } else {
            None
        }
    }

    /// The kind that `name` names.
    pub fn parse(name: &str) -> (kind: Option<ObjectType>)
        ensures
            kind == ObjectType::of_tag(name.spec_bytes()),
    {
        ObjectType::from_tag(name.as_bytes())
    }
}

/// The four names are ASCII, hold neither a space nor a NUL, and differ from
/// one another.
pub proof fn lemma_names()
    ensures
        forall|kind: ObjectType| #[trigger] vstd::utf8::is_ascii_chars(kind.name()),
        forall|kind: ObjectType| (#[trigger] kind.tag()).len() > 0,
        forall|kind: ObjectType| !(#[trigger] kind.tag()).contains(SPACE),
        forall|kind: ObjectType| !(#[trigger] kind.tag()).contains(NUL),
        forall|kind: ObjectType| ObjectType::of_tag(#[trigger] kind.tag()) == Some(kind),
{
    reveal_strlit("commit");
    reveal_strlit("tag");
    reveal_strlit("tree");
    reveal_strlit("blob");
    assert(ObjectType::Commit.tag()[0] == 0x63);
    assert(ObjectType::Tag.tag()[1] == 0x61);
    assert(ObjectType::Tree.tag()[1] == 0x72);
    assert(ObjectType::Blob.tag()[0] == 0x62);
    assert forall|kind: ObjectType| ObjectType::of_tag(#[trigger] kind.tag()) == Some(kind) by {
        match kind {
            ObjectType::Commit => {},
            ObjectType::Tag => {
                assert(ObjectType::Tag.tag().len() != ObjectType::Commit.tag().len());
            },
            ObjectType::Tree => {
                assert(ObjectType::Tree.tag().len() != ObjectType::Commit.tag().len());
                assert(ObjectType::Tree.tag().len() != ObjectType::Tag.tag().len());
            },
            ObjectType::Blob => {
                assert(ObjectType::Blob.tag().len() != ObjectType::Commit.tag().len());
                assert(ObjectType::Blob.tag().len() != ObjectType::Tag.tag().len());
                assert(ObjectType::Blob.tag()[0] != ObjectType::Tree.tag()[0]);
            },
        }
    }
}

/// No tag has more than six bytes.
pub proof fn lemma_tag_len()
    ensures
        forall|kind: ObjectType| (#[trigger] kind.tag()).len() <= 6,
{
    reveal_strlit("commit");
    reveal_strlit("tag");
    reveal_strlit("tree");
    reveal_strlit("blob");
}

impl Default for ObjectType {
    fn default() -> (kind: ObjectType)
        ensures
            kind == ObjectType::Blob,
    {
        ObjectType::Blob
    }
}

impl core::str::FromStr for ObjectType {
    type Err = String;

    fn from_str(s: &str) -> (r: Result<ObjectType, String>)
        ensures
            match r {
                Ok(kind) => ObjectType::of_tag(s.spec_bytes()) == Some(kind),
                Err(message) => ObjectType::of_tag(s.spec_bytes()) is None && message@
                    == "Invalid ObjectType variant: "@ + s@,
            },
    {
        match ObjectType::parse(s) {
            Some(kind) => Ok(kind),
            None => Err("Invalid ObjectType variant: ".to_owned().concat(s)),
        }
    }
}

} // verus!
