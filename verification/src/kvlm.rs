//! Key-value lists with a message: the payload of commits and tags.
//!
//! The payload is a run of fields, a blank line and the message. A field is
//! its key, a space, its value and a newline. A value may span lines: in the
//! payload every newline inside it is followed by one space, which is not
//! part of the value. The message is kept as it stands.
//!
//! Fields keep the order of the payload, also across keys, so that a list
//! that was read is written back byte for byte.

use vstd::prelude::*;
use crate::bytes::append;
use crate::bytes::append_range;
use crate::bytes::bytes_eq;
use crate::bytes::copy_range;
use crate::bytes::find_byte;
use crate::bytes::index_of;
use crate::bytes::lemma_find_byte;
use crate::bytes::lemma_find_byte_is;
use crate::bytes::NEWLINE;
use crate::bytes::SPACE;
use crate::error::FormatError;
use crate::text::text_bytes;

verus! {

/// One field of a key-value list.
#[derive(Debug, PartialEq, Eq)]
pub struct KvField {
    pub key: Vec<u8>,
    pub value: Vec<u8>,
}

/// What a field holds.
pub ghost struct FieldView {
    pub key: Seq<u8>,
    pub value: Seq<u8>,
}

impl View for KvField {
    type V = FieldView;

    open spec fn view(&self) -> FieldView {
        FieldView { key: self.key@, value: self.value@ }
    }
}

/// A key-value list with a message.
#[derive(Debug, PartialEq, Eq)]
pub struct Kvlm {
    pub fields: Vec<KvField>,
    pub message: Vec<u8>,
}

/// What a key-value list holds.
pub ghost struct KvlmView {
    pub fields: Seq<FieldView>,
    pub message: Seq<u8>,
}

impl View for Kvlm {
    type V = KvlmView;

    open spec fn view(&self) -> KvlmView {
        KvlmView { fields: self.fields@.map_values(|f: KvField| f@), message: self.message@ }
    }
}

impl Clone for KvField {
    fn clone(&self) -> (copy: KvField)
        ensures
            copy@ == self@,
    {
        let key = copy_range(self.key.as_slice(), 0, self.key.len());
        let value = copy_range(self.value.as_slice(), 0, self.value.len());
        assert(key@ =~= self.key@);
        assert(value@ =~= self.value@);
        KvField { key, value }
    }
}

impl Clone for Kvlm {
    fn clone(&self) -> (copy: Kvlm)
        ensures
            copy@ == self@,
    {
        let mut fields: Vec<KvField> = Vec::new();
        let mut i: usize = 0;
        while i < self.fields.len()
            invariant
                i <= self.fields@.len(),
                fields@.len() == i,
                forall|j: int| 0 <= j < i ==> fields@[j]@ == self.fields@[j]@,
            decreases self.fields@.len() - i,
        {
            fields.push(self.fields[i].clone());
            i += 1;
        }
        let message = copy_range(self.message.as_slice(), 0, self.message.len());
        assert(message@ =~= self.message@);
        let copy = Kvlm { fields, message };
        assert(copy@.fields =~= self@.fields);
        copy
    }
}

/// The key under which `get` hands out the message.
pub open spec fn message_key() -> Seq<u8> {
    text_bytes("message"@)
}

/// True when `s` holds no `b`.
pub open spec fn free_of(s: Seq<u8>, b: u8) -> bool {
    forall|i: int| 0 <= i < s.len() ==> s[i] != b
}

/// True for a key that can be written: it holds neither a space nor a
/// newline.
pub open spec fn key_ok(key: Seq<u8>) -> bool {
    free_of(key, SPACE) && free_of(key, NEWLINE)
}

/// True for a list that is read back as it was written: every key can be
/// written, and only the first key may be empty.
pub open spec fn kvlm_wf(kvlm: KvlmView) -> bool {
    forall|i: int|
        0 <= i < kvlm.fields.len() ==> {
            &&& key_ok(#[trigger] kvlm.fields[i].key)
            &&& (i > 0 ==> kvlm.fields[i].key.len() > 0)
        }
}

/// A value as it stands in a payload: a space after each of its newlines.
pub open spec fn fold_value(value: Seq<u8>) -> Seq<u8>
    decreases value.len(),
{
    if value.len() == 0 {
        Seq::empty()
    } else if value[0] == NEWLINE {
        seq![NEWLINE, SPACE] + fold_value(value.drop_first())
    } else {
        seq![value[0]] + fold_value(value.drop_first())
    }
}

/// One field as it stands in a payload.
pub open spec fn field_bytes(field: FieldView) -> Seq<u8> {
    field.key + seq![SPACE] + fold_value(field.value) + seq![NEWLINE]
}

/// A run of fields as it stands in a payload.
pub open spec fn fields_bytes(fields: Seq<FieldView>) -> Seq<u8>
    decreases fields.len(),
{
    if fields.len() == 0 {
        Seq::empty()
    } else {
        field_bytes(fields[0]) + fields_bytes(fields.drop_first())
    }
}

/// The payload of a key-value list.
pub open spec fn kvlm_bytes(kvlm: KvlmView) -> Seq<u8> {
    fields_bytes(kvlm.fields) + seq![NEWLINE] + kvlm.message
}

/// The value at the front of `s` and the number of bytes that it takes up,
/// its closing newline included. A newline that a space follows belongs to
/// the value; the first newline that no space follows closes it. `None` when
/// no newline closes the value.
pub open spec fn parse_value(s: Seq<u8>) -> Option<(Seq<u8>, int)>
    decreases s.len(),
    via parse_value_decreases
{
    let newline = find_byte(s, NEWLINE, 0);
    if newline >= s.len() {
        None
    } else if newline + 1 < s.len() && s[newline + 1] == SPACE {
        match parse_value(s.skip(newline + 2)) {
            Some((more, taken)) => Some((s.subrange(0, newline + 1) + more, newline + 2 + taken)),
            None => None,
        }
    } else {
        Some((s.subrange(0, newline), newline + 1))
    }
}

#[via_fn]
proof fn parse_value_decreases(s: Seq<u8>) {
    lemma_find_byte(s, NEWLINE, 0);
}

/// `fields` put before the fields of `back`, or the error of `back`.
pub open spec fn with_fields(front: Seq<FieldView>, back: Result<KvlmView, FormatError>) -> Result<
    KvlmView,
    FormatError,
> {
    match back {
        Ok(kvlm) => Ok(KvlmView { fields: front + kvlm.fields, message: kvlm.message }),
        Err(e) => Err(e),
    }
}

/// The key-value list that a payload holds.
///
/// Where a space comes before the first newline, the bytes up to the space
/// are a key and a value follows. Where the payload starts with a newline,
/// the rest is the message. Anything else lacks the blank line, and is an
/// error.
pub open spec fn parse_kvlm(s: Seq<u8>) -> Result<KvlmView, FormatError>
    decreases s.len(),
    via parse_kvlm_decreases
{
    let space = find_byte(s, SPACE, 0);
    let newline = find_byte(s, NEWLINE, 0);
    if space < newline {
        match parse_value(s.skip(space + 1)) {
            Some((value, taken)) => with_fields(
                seq![FieldView { key: s.subrange(0, space), value }],
                parse_kvlm(s.skip(space + 1 + taken)),
            ),
            None => Err(FormatError::MissingTerminator),
        }
    } else if s.len() > 0 && newline == 0 {
        Ok(KvlmView { fields: Seq::empty(), message: s.skip(1) })
    } else {
        Err(FormatError::MissingTerminator)
    }
}

#[via_fn]
proof fn parse_kvlm_decreases(s: Seq<u8>) {
    lemma_find_byte(s, SPACE, 0);
    lemma_find_byte(s, NEWLINE, 0);
    let space = find_byte(s, SPACE, 0);
    if space < s.len() {
        lemma_parse_value(s.skip(space + 1));
    }
}

/// The values of the fields with the given key, in the order of the fields.
pub open spec fn values_of(fields: Seq<FieldView>, key: Seq<u8>) -> Seq<Seq<u8>>
    decreases fields.len(),
{
    if fields.len() == 0 {
        Seq::empty()
    } else if fields.last().key == key {
        values_of(fields.drop_last(), key).push(fields.last().value)
    } else {
        values_of(fields.drop_last(), key)
    }
}

/// What `get` returns for a key: the message alone under the key `message`;
/// under any other key the values of its fields, if it has any.
pub open spec fn lookup(kvlm: KvlmView, key: Seq<u8>) -> Option<Seq<Seq<u8>>> {
    if key == message_key() {
        Some(seq![kvlm.message])
    } else if values_of(kvlm.fields, key).len() == 0 {
        None
    } else {
        Some(values_of(kvlm.fields, key))
    }
}

/// The byte strings that the vectors hold.
pub open spec fn byte_strings(values: Seq<Vec<u8>>) -> Seq<Seq<u8>> {
    values.map_values(|value: Vec<u8>| value@)
}

/// Searching what is left after `skipped` bytes is searching the whole from
/// there on.
proof fn lemma_find_byte_skip(s: Seq<u8>, b: u8, skipped: int, from: int)
    requires
        0 <= skipped,
        0 <= from,
        skipped + from <= s.len(),
    ensures
        find_byte(s.skip(skipped), b, from) == find_byte(s, b, skipped + from) - skipped,
    decreases s.len() - skipped - from,
{
    if skipped + from < s.len() {
        assert(s.skip(skipped)[from] == s[skipped + from]);
        if s[skipped + from] != b {
            lemma_find_byte_skip(s, b, skipped, from + 1);
        }
    }
}

/// Folding leaves a line without a newline as it is.
proof fn lemma_fold_line(line: Seq<u8>, rest: Seq<u8>)
    requires
        free_of(line, NEWLINE),
    ensures
        fold_value(line + rest) == line + fold_value(rest),
    decreases line.len(),
{
    if line.len() == 0 {
        assert(line + rest =~= rest);
        assert(line + fold_value(rest) =~= fold_value(rest));
    } else {
        let s = line + rest;
        assert(s[0] == line[0]);
        assert(s.drop_first() =~= line.drop_first() + rest);
        assert(free_of(line.drop_first(), NEWLINE)) by {
            assert forall|i: int| 0 <= i < line.drop_first().len() implies line.drop_first()[i]
                != NEWLINE by {
                assert(line.drop_first()[i] == line[i + 1]);
            }
        }
        lemma_fold_line(line.drop_first(), rest);
        assert(seq![line[0]] + (line.drop_first() + fold_value(rest)) =~= line + fold_value(rest));
    }
}

/// Folding a line, a newline and more puts one space after the newline.
proof fn lemma_fold_lines(line: Seq<u8>, more: Seq<u8>)
    requires
        free_of(line, NEWLINE),
    ensures
        fold_value(line + seq![NEWLINE] + more) == line + seq![NEWLINE, SPACE] + fold_value(more),
{
    let tail = seq![NEWLINE] + more;
    assert(line + seq![NEWLINE] + more =~= line + tail);
    lemma_fold_line(line, tail);
    assert(tail[0] == NEWLINE);
    assert(tail.drop_first() =~= more);
    assert(line + (seq![NEWLINE, SPACE] + fold_value(more)) =~= line + seq![NEWLINE, SPACE]
        + fold_value(more));
}

/// A value that parses takes up a prefix of the input that is the folded
/// value and its closing newline; no space follows that prefix.
pub proof fn lemma_parse_value(s: Seq<u8>)
    ensures
        parse_value(s) matches Some((value, taken)) ==> {
            &&& 1 <= taken <= s.len()
            &&& s.subrange(0, taken) == fold_value(value) + seq![NEWLINE]
            &&& (taken < s.len() ==> s[taken] != SPACE)
        },
    decreases s.len(),
{
    let newline = find_byte(s, NEWLINE, 0);
    lemma_find_byte(s, NEWLINE, 0);
    if newline < s.len() {
        let line = s.subrange(0, newline);
        assert(free_of(line, NEWLINE)) by {
            assert forall|i: int| 0 <= i < line.len() implies line[i] != NEWLINE by {
                assert(line[i] == s[i]);
            }
        }
        if newline + 1 < s.len() && s[newline + 1] == SPACE {
            let rest = s.skip(newline + 2);
            lemma_parse_value(rest);
            if let Some((more, taken)) = parse_value(rest) {
                let value = s.subrange(0, newline + 1) + more;
                assert(value =~= line + seq![NEWLINE] + more);
                lemma_fold_lines(line, more);
                assert(rest.subrange(0, taken) =~= s.subrange(newline + 2, newline + 2 + taken));
                assert(s.subrange(0, newline + 2 + taken) =~= line + seq![NEWLINE, SPACE]
                    + s.subrange(newline + 2, newline + 2 + taken));
                assert(s.subrange(0, newline + 2 + taken) =~= fold_value(value) + seq![NEWLINE]);
                if newline + 2 + taken < s.len() {
                    assert(rest[taken] == s[newline + 2 + taken]);
                }
            }
        } else {
            lemma_fold_line(line, Seq::empty());
            assert(line + Seq::<u8>::empty() =~= line);
            assert(fold_value(Seq::<u8>::empty()) =~= Seq::<u8>::empty());
            assert(s.subrange(0, newline + 1) =~= line + seq![NEWLINE]);
        }
    }
}

/// A folded value with its closing newline reads back as the value, as long
/// as no space follows the newline.
pub proof fn lemma_parse_folded_value(value: Seq<u8>, rest: Seq<u8>)
    requires
        rest.len() > 0 ==> rest[0] != SPACE,
    ensures
        parse_value(fold_value(value) + seq![NEWLINE] + rest) == Some(
            (value, fold_value(value).len() as int + 1),
        ),
    decreases value.len(),
{
    let s = fold_value(value) + seq![NEWLINE] + rest;
    let at = find_byte(value, NEWLINE, 0);
    lemma_find_byte(value, NEWLINE, 0);
    let line = value.subrange(0, at);
    assert(free_of(line, NEWLINE)) by {
        assert forall|i: int| 0 <= i < line.len() implies line[i] != NEWLINE by {
            assert(line[i] == value[i]);
        }
    }
    if at >= value.len() {
        assert(line =~= value);
        lemma_fold_line(value, Seq::empty());
        assert(value + Seq::<u8>::empty() =~= value);
        assert(fold_value(Seq::<u8>::empty()) =~= Seq::<u8>::empty());
        assert(fold_value(value) =~= value);
        assert forall|i: int| 0 <= i < at implies s[i] != NEWLINE by {
            assert(s[i] == value[i]);
        }
        assert(s[at] == NEWLINE);
        lemma_find_byte_is(s, NEWLINE, 0, at);
        if at + 1 < s.len() {
            assert(s[at + 1] == rest[0]);
        }
        assert(s.subrange(0, at) =~= value);
    } else {
        let more = value.skip(at + 1);
        assert(value =~= line + seq![NEWLINE] + more);
        lemma_fold_lines(line, more);
        let folded = line + seq![NEWLINE, SPACE] + fold_value(more);
        assert(fold_value(value) == folded);
        assert forall|i: int| 0 <= i < at implies s[i] != NEWLINE by {
            assert(s[i] == line[i]);
        }
        assert(s[at] == NEWLINE);
        assert(s[at + 1] == SPACE);
        lemma_find_byte_is(s, NEWLINE, 0, at);
        let tail = fold_value(more) + seq![NEWLINE] + rest;
        assert(s.skip(at + 2) =~= tail);
        lemma_parse_folded_value(more, rest);
        assert(s.subrange(0, at + 1) =~= line + seq![NEWLINE]);
        assert(s.subrange(0, at + 1) + more =~= value);
    }
}

/// A field in stored form, followed by bytes that do not start with a space,
/// parses to that field and whatever the bytes parse to.
proof fn lemma_parse_field(field: FieldView, rest: Seq<u8>)
    requires
        key_ok(field.key),
        rest.len() > 0 ==> rest[0] != SPACE,
    ensures
        parse_kvlm(field_bytes(field) + rest) == with_fields(seq![field], parse_kvlm(rest)),
{
    let s = field_bytes(field) + rest;
    let space = field.key.len() as int;
    assert forall|i: int| 0 <= i < space implies s[i] != SPACE && s[i] != NEWLINE by {
        assert(s[i] == field.key[i]);
    }
    assert(s[space] == SPACE);
    lemma_find_byte_is(s, SPACE, 0, space);
    lemma_find_byte(s, NEWLINE, 0);
    assert(find_byte(s, NEWLINE, 0) > space);
    let tail = fold_value(field.value) + seq![NEWLINE] + rest;
    assert(s.skip(space + 1) =~= tail);
    lemma_parse_folded_value(field.value, rest);
    assert(s.skip(space + 1 + fold_value(field.value).len() + 1) =~= rest);
    assert(s.subrange(0, space) =~= field.key);
}

/// Fields in stored form, none with an empty key, followed by bytes that
/// start with something other than a space, parse to those fields and
/// whatever the bytes parse to.
proof fn lemma_parse_fields(fields: Seq<FieldView>, rest: Seq<u8>)
    requires
        forall|i: int| 0 <= i < fields.len() ==> key_ok(#[trigger] fields[i].key),
        forall|i: int| 0 < i < fields.len() ==> (#[trigger] fields[i].key).len() > 0,
        rest.len() > 0,
        rest[0] != SPACE,
    ensures
        parse_kvlm(fields_bytes(fields) + rest) == with_fields(fields, parse_kvlm(rest)),
    decreases fields.len(),
{
    if fields.len() == 0 {
        assert(fields_bytes(fields) + rest =~= rest);
        match parse_kvlm(rest) {
            Ok(kvlm) => {
                assert(fields + kvlm.fields =~= kvlm.fields);
            },
            Err(_) => {},
        }
    } else {
        let first = fields[0];
        let others = fields.drop_first();
        let tail = fields_bytes(others) + rest;
        assert(fields_bytes(fields) + rest =~= field_bytes(first) + tail);
        assert(key_ok(first.key));
        assert forall|i: int| 0 <= i < others.len() implies key_ok(#[trigger] others[i].key) && (
        others[i].key).len() > 0 by {
            assert(others[i] == fields[i + 1]);
        }
        assert(tail.len() > 0 && tail[0] != SPACE) by {
            if others.len() == 0 {
                assert(tail =~= rest);
            } else {
                let next = others[0];
                assert(fields_bytes(others) =~= field_bytes(next) + fields_bytes(
                    others.drop_first(),
                ));
                assert(tail[0] == next.key[0]);
            }
        }
        lemma_parse_field(first, tail);
        lemma_parse_fields(others, rest);
        match parse_kvlm(rest) {
            Ok(kvlm) => {
                assert(seq![first] + (others + kvlm.fields) =~= fields + kvlm.fields);
            },
            Err(_) => {},
        }
    }
}

/// A well-formed list that is written and read comes back as it was.
pub proof fn lemma_kvlm_round_trip(kvlm: KvlmView)
    requires
        kvlm_wf(kvlm),
    ensures
        parse_kvlm(kvlm_bytes(kvlm)) == Ok::<KvlmView, FormatError>(kvlm),
{
    let rest = seq![NEWLINE] + kvlm.message;
    assert(kvlm_bytes(kvlm) =~= fields_bytes(kvlm.fields) + rest);
    lemma_parse_fields(kvlm.fields, rest);
    assert(rest[0] == NEWLINE);
    lemma_find_byte_is(rest, NEWLINE, 0, 0);
    lemma_find_byte(rest, SPACE, 0);
    assert(rest.skip(1) =~= kvlm.message);
    assert(kvlm.fields + Seq::<FieldView>::empty() =~= kvlm.fields);
}

/// A payload that is read and written comes back byte for byte, and what was
/// read is well formed.
pub proof fn lemma_kvlm_bytes_of_parsed(s: Seq<u8>)
    ensures
        parse_kvlm(s) matches Ok(kvlm) ==> {
            &&& kvlm_bytes(kvlm) == s
            &&& kvlm_wf(kvlm)
            &&& (kvlm.fields.len() > 0 && s[0] != SPACE ==> kvlm.fields[0].key.len() > 0)
        },
    decreases s.len(),
{
    let space = find_byte(s, SPACE, 0);
    let newline = find_byte(s, NEWLINE, 0);
    lemma_find_byte(s, SPACE, 0);
    lemma_find_byte(s, NEWLINE, 0);
    if space < newline {
        let after = s.skip(space + 1);
        lemma_parse_value(after);
        if let Some((value, taken)) = parse_value(after) {
            let rest = s.skip(space + 1 + taken);
            lemma_kvlm_bytes_of_parsed(rest);
            if let Ok(back) = parse_kvlm(rest) {
                let field = FieldView { key: s.subrange(0, space), value };
                let kvlm = KvlmView { fields: seq![field] + back.fields, message: back.message };
                assert(kvlm.fields[0] == field);
                assert(kvlm.fields.drop_first() =~= back.fields);
                assert(after.subrange(0, taken) =~= s.subrange(space + 1, space + 1 + taken));
                assert(kvlm_bytes(kvlm) =~= s) by {
                    assert(fields_bytes(kvlm.fields) == field_bytes(field) + fields_bytes(
                        back.fields,
                    ));
                    assert(s =~= s.subrange(0, space) + seq![SPACE] + s.subrange(
                        space + 1,
                        space + 1 + taken,
                    ) + rest);
                }
                assert(key_ok(field.key)) by {
                    assert forall|i: int| 0 <= i < field.key.len() implies field.key[i] != SPACE
                        && field.key[i] != NEWLINE by {
                        assert(field.key[i] == s[i]);
                    }
                }
                if rest.len() > 0 {
                    assert(rest[0] == after[taken]);
                }
                assert forall|i: int| 0 <= i < kvlm.fields.len() implies {
                    &&& key_ok(#[trigger] kvlm.fields[i].key)
                    &&& (i > 0 ==> kvlm.fields[i].key.len() > 0)
                } by {
                    if i > 0 {
                        assert(kvlm.fields[i] == back.fields[i - 1]);
                    }
                }
                if s[0] != SPACE {
                    assert(space > 0);
                }
            }
        }
    } else if s.len() > 0 && newline == 0 {
        let kvlm = KvlmView { fields: Seq::empty(), message: s.skip(1) };
        assert(fields_bytes(kvlm.fields) =~= Seq::<u8>::empty());
        assert(kvlm_bytes(kvlm) =~= s);
    }
}

/// Two well-formed lists with the same payload are the same list.
pub proof fn lemma_kvlm_bytes_injective(a: KvlmView, b: KvlmView)
    requires
        kvlm_wf(a),
        kvlm_wf(b),
        kvlm_bytes(a) == kvlm_bytes(b),
    ensures
        a == b,
{
    lemma_kvlm_round_trip(a);
    lemma_kvlm_round_trip(b);
}

/// `front` glued before a value that was read from what follows it.
spec fn glue_value(front: Seq<u8>, skipped: int, back: Option<(Seq<u8>, int)>) -> Option<
    (Seq<u8>, int),
> {
    match back {
        Some((more, taken)) => Some((front + more, skipped + taken)),
        None => None,
    }
}

/// Reads the value that starts at `start` and returns it with the position
/// after its closing newline.
pub fn kvlm_parse_value(raw: &[u8], start: usize) -> (r: Option<(Vec<u8>, usize)>)
    requires
        start <= raw@.len(),
    ensures
        match r {
            Some((value, next)) => {
                &&& start < next <= raw@.len()
                &&& parse_value(raw@.skip(start as int)) == Some((value@, next - start))
            },
            None => parse_value(raw@.skip(start as int)) is None,
        },
{
    let mut value: Vec<u8> = Vec::new();
    let mut pos: usize = start;
    proof {
        match parse_value(raw@.skip(pos as int)) {
            Some((more, taken)) => {
                assert(value@ + more =~= more);
            },
            None => {},
        }
    }
    loop
        invariant
            start <= pos <= raw@.len(),
            parse_value(raw@.skip(start as int)) == glue_value(
                value@,
                pos - start,
                parse_value(raw@.skip(pos as int)),
            ),
        decreases raw@.len() - pos,
    {
        let ghost here = raw@.skip(pos as int);
        let ghost front = value@;
        let newline = index_of(raw, NEWLINE, pos);
        proof {
            lemma_find_byte_skip(raw@, NEWLINE, pos as int, 0);
            lemma_parse_value(here);
        }
        if newline >= raw.len() {
            return None;
        }
        if newline + 1 < raw.len() && raw[newline + 1] == SPACE {
            append_range(&mut value, raw, pos, newline + 1);
            proof {
                let rest = raw@.skip(newline + 2);
                assert(here[newline - pos + 1] == raw@[newline + 1]);
                assert(here.skip(newline - pos + 2) =~= rest);
                assert(here.subrange(0, newline - pos + 1) =~= raw@.subrange(
                    pos as int,
                    newline + 1,
                ));
                match parse_value(rest) {
                    Some((more, taken)) => {
                        assert(front + (here.subrange(0, newline - pos + 1) + more) =~= value@
                            + more);
                    },
                    None => {},
                }
            }
            pos = newline + 2;
        } else {
            append_range(&mut value, raw, pos, newline);
            proof {
                if newline + 1 < raw@.len() {
                    assert(here[newline - pos + 1] == raw@[newline + 1]);
                }
                assert(here.subrange(0, newline - pos) =~= raw@.subrange(
                    pos as int,
                    newline as int,
                ));
            }
            return Some((value, newline + 1));
        }
    }
}

/// Reads the field or the message that starts at `pos`. Returns the
/// position after a field that it pushed to `fields`, `Ok(None)` with the
/// message in `message` where the fields end, and an error where neither a
/// field nor the blank line stands.
fn kvlm_parse_inner(raw: &[u8], pos: usize, fields: &mut Vec<KvField>, message: &mut Vec<u8>) -> (r:
    Result<Option<usize>, FormatError>)
    requires
        pos <= raw@.len(),
    ensures
        match r {
            Ok(Some(next)) => {
                &&& pos < next <= raw@.len()
                &&& final(fields)@.len() == old(fields)@.len() + 1
                &&& final(fields)@.subrange(0, old(fields)@.len() as int) == old(fields)@
                &&& final(message)@ == old(message)@
                &&& parse_kvlm(raw@.skip(pos as int)) == with_fields(
                    seq![final(fields)@.last()@],
                    parse_kvlm(raw@.skip(next as int)),
                )
            },
            Ok(None) => {
                &&& final(fields)@ == old(fields)@
                &&& parse_kvlm(raw@.skip(pos as int)) == Ok::<KvlmView, FormatError>(
                    KvlmView { fields: Seq::empty(), message: final(message)@ },
                )
            },
            Err(e) => parse_kvlm(raw@.skip(pos as int)) == Err::<KvlmView, FormatError>(e),
        },
{
    let ghost here = raw@.skip(pos as int);
    let space = index_of(raw, SPACE, pos);
    let newline = index_of(raw, NEWLINE, pos);
    proof {
        lemma_find_byte_skip(raw@, SPACE, pos as int, 0);
        lemma_find_byte_skip(raw@, NEWLINE, pos as int, 0);
    }
    if space < newline {
        proof {
            assert(here.skip(space - pos + 1) =~= raw@.skip(space + 1));
        }
        match kvlm_parse_value(raw, space + 1) {
            Some((value, next)) => {
                let key = copy_range(raw, pos, space);
                proof {
                    assert(here.subrange(0, space - pos) =~= raw@.subrange(
                        pos as int,
                        space as int,
                    ));
                    assert(here.skip(space - pos + 1 + (next - (space + 1))) =~= raw@.skip(
                        next as int,
                    ));
                }
                fields.push(KvField { key, value });
                assert(fields@.subrange(0, old(fields)@.len() as int) =~= old(fields)@);
                Ok(Some(next))
            },
            None => Err(FormatError::MissingTerminator),
        }
    } else if pos < raw.len() && newline == pos {
        message.clear();
        append_range(message, raw, pos + 1, raw.len());
        proof {
            assert(here.skip(1) =~= raw@.subrange(pos + 1, raw@.len() as int));
            assert(message@ =~= here.skip(1));
        }
        Ok(None)
    } else {
        Err(FormatError::MissingTerminator)
    }
}

/// Reads a key-value list from its payload.
pub fn kvlm_parse(raw: &[u8]) -> (r: Result<Kvlm, FormatError>)
    ensures
        match r {
            Ok(kvlm) => parse_kvlm(raw@) == Ok::<KvlmView, FormatError>(kvlm@) && kvlm.wf(),
            Err(e) => parse_kvlm(raw@) == Err::<KvlmView, FormatError>(e),
        },
{
    let mut fields: Vec<KvField> = Vec::new();
    let mut message: Vec<u8> = Vec::new();
    let mut pos: usize = 0;
    proof {
        assert(raw@.skip(0) =~= raw@);
        match parse_kvlm(raw@) {
            Ok(kvlm) => {
                assert(fields@.map_values(|f: KvField| f@) + kvlm.fields =~= kvlm.fields);
            },
            Err(_) => {},
        }
    }
    loop
        invariant
            pos <= raw@.len(),
            parse_kvlm(raw@) == with_fields(
                fields@.map_values(|f: KvField| f@),
                parse_kvlm(raw@.skip(pos as int)),
            ),
        decreases raw@.len() - pos,
    {
        let ghost before = fields@.map_values(|f: KvField| f@);
        match kvlm_parse_inner(raw, pos, &mut fields, &mut message) {
            Ok(Some(next)) => {
                proof {
                    let now = fields@.map_values(|f: KvField| f@);
                    let field = fields@.last()@;
                    assert(now =~= before.push(field)) by {
                        assert forall|i: int| 0 <= i < before.len() implies now[i] == before[i] by {
                            assert(fields@.subrange(0, before.len() as int)[i] == fields@[i]);
                        }
                    }
                    match parse_kvlm(raw@.skip(next as int)) {
                        Ok(back) => {
                            assert(before + (seq![field] + back.fields) =~= now + back.fields);
                        },
                        Err(_) => {},
                    }
                }
                pos = next;
            },
            Ok(None) => {
                let kvlm = Kvlm { fields, message };
                proof {
                    assert(before + Seq::<FieldView>::empty() =~= before);
                    lemma_kvlm_bytes_of_parsed(raw@);
                }
                return Ok(kvlm);
            },
            Err(e) => {
                return Err(e);
            },
        }
    }
}

/// Appends a value to `out` with a space after each of its newlines.
fn write_folded(out: &mut Vec<u8>, value: &[u8])
    ensures
        final(out)@ == old(out)@ + fold_value(value@),
{
    let mut i: usize = 0;
    proof {
        assert(value@.skip(0) =~= value@);
    }
    while i < value.len()
        invariant
            i <= value@.len(),
            out@ + fold_value(value@.skip(i as int)) == old(out)@ + fold_value(value@),
        decreases value@.len() - i,
    {
        let ghost before = out@;
        let ghost left = value@.skip(i as int);
        let b = value[i];
        out.push(b);
        if b == NEWLINE {
            out.push(SPACE);
        }
        proof {
            assert(left[0] == b);
            assert(left.drop_first() =~= value@.skip(i + 1));
            assert(out@ + fold_value(value@.skip(i + 1)) =~= before + fold_value(left));
        }
        i += 1;
    }
    assert(fold_value(value@.skip(i as int)) =~= Seq::<u8>::empty());
    assert(out@ + Seq::<u8>::empty() =~= out@);
}

/// Writes a key-value list as its payload.
pub fn kvlm_serializie(kvlm: &Kvlm) -> (out: Vec<u8>)
    ensures
        out@ == kvlm_bytes(kvlm@),
{
    let mut out: Vec<u8> = Vec::new();
    let mut i: usize = 0;
    let ghost all = kvlm@.fields;
    proof {
        assert(all.skip(0) =~= all);
        assert(out@ + fields_bytes(all) =~= fields_bytes(all));
    }
    while i < kvlm.fields.len()
        invariant
            i <= kvlm.fields@.len(),
            all == kvlm@.fields,
            out@ + fields_bytes(all.skip(i as int)) == fields_bytes(all),
        decreases kvlm.fields@.len() - i,
    {
        let ghost before = out@;
        let ghost left = all.skip(i as int);
        let field = &kvlm.fields[i];
        append(&mut out, field.key.as_slice());
        out.push(SPACE);
        write_folded(&mut out, field.value.as_slice());
        out.push(NEWLINE);
        proof {
            assert(left[0] == field@);
            assert(left.drop_first() =~= all.skip(i + 1));
            assert(out@ =~= before + field_bytes(field@));
            assert(out@ + fields_bytes(all.skip(i + 1)) =~= before + fields_bytes(left));
        }
        i += 1;
    }
    proof {
        assert(fields_bytes(all.skip(i as int)) =~= Seq::<u8>::empty());
        assert(out@ + Seq::<u8>::empty() =~= out@);
    }
    out.push(NEWLINE);
    append(&mut out, kvlm.message.as_slice());
    out
}

impl Kvlm {
    /// True for a list that is read back as it was written.
    pub open spec fn wf(&self) -> bool {
        kvlm_wf(self@)
    }

    /// A list of the given fields and message; `None` unless every key can
    /// be written and only the first is empty.
    pub fn new(fields: Vec<KvField>, message: Vec<u8>) -> (r: Option<Kvlm>)
        ensures
            r is Some <==> kvlm_wf(
                KvlmView { fields: fields@.map_values(|f: KvField| f@), message: message@ },
            ),
            r matches Some(kvlm) ==> kvlm.fields == fields && kvlm.message == message,
    {
        let ghost views = fields@.map_values(|f: KvField| f@);
        let mut i: usize = 0;
        while i < fields.len()
            invariant
                i <= fields@.len(),
                views == fields@.map_values(|f: KvField| f@),
                forall|j: int|
                    0 <= j < i ==> {
                        &&& key_ok(#[trigger] views[j].key)
                        &&& (j > 0 ==> views[j].key.len() > 0)
                    },
            decreases fields@.len() - i,
        {
            let key = fields[i].key.as_slice();
            let space = index_of(key, SPACE, 0);
            let newline = index_of(key, NEWLINE, 0);
            proof {
                lemma_find_byte(key@, SPACE, 0);
                lemma_find_byte(key@, NEWLINE, 0);
                assert(views[i as int].key == key@);
            }
            if space < key.len() || newline < key.len() || (i > 0 && key.len() == 0) {
                proof {
                    let whole = KvlmView { fields: views, message: message@ };
                    assert(whole.fields[i as int].key == key@);
                    if space < key@.len() {
                        assert(key@[space as int] == SPACE);
                    } else if newline < key@.len() {
                        assert(key@[newline as int] == NEWLINE);
                    }
                }
                return None;
            }
            i += 1;
        }
        Some(Kvlm { fields, message })
    }

    /// The values stored under `key`, in the order of the fields; the message
    /// alone under the key `message`. `None` for a key that no field has.
    pub fn get(&self, key: &[u8]) -> (r: Option<Vec<Vec<u8>>>)
        ensures
            match r {
                Some(values) => lookup(self@, key@) == Some(byte_strings(values@)),
                None => lookup(self@, key@) is None,
            },
    {
        let mut values: Vec<Vec<u8>> = Vec::new();
        let reserved = "message".as_bytes();
        proof {
            reveal_strlit("message");
            vstd::string::is_ascii_spec_bytes("message");
        }
        if bytes_eq(key, reserved) {
            values.push(copy_range(self.message.as_slice(), 0, self.message.len()));
            proof {
                assert(self.message@.subrange(0, self.message@.len() as int) =~= self.message@);
                assert(byte_strings(values@) =~= seq![self@.message]);
            }
            return Some(values);
        }
        let mut i: usize = 0;
        let ghost all = self@.fields;
        proof {
            assert(all.subrange(0, 0) =~= Seq::<FieldView>::empty());
            assert(byte_strings(values@) =~= Seq::<Seq<u8>>::empty());
        }
        while i < self.fields.len()
            invariant
                i <= self.fields@.len(),
                all == self@.fields,
                byte_strings(values@) == values_of(all.subrange(0, i as int), key@),
            decreases self.fields@.len() - i,
        {
            let field = &self.fields[i];
            let ghost seen = all.subrange(0, i as int);
            let ghost now = all.subrange(0, i + 1);
            let ghost found = byte_strings(values@);
            proof {
                assert(now.drop_last() =~= seen);
                assert(now.last() == field@);
            }
            if bytes_eq(field.key.as_slice(), key) {
                let copy = copy_range(field.value.as_slice(), 0, field.value.len());
                assert(copy@ =~= field.value@);
                values.push(copy);
                assert(byte_strings(values@) =~= found.push(field.value@));
            }
            i += 1;
        }
        assert(all.subrange(0, i as int) =~= all);
        if values.len() == 0 {
            None
        } else {
            Some(values)
        }
    }
}

} // verus!
