//! Trees: lists of leaves, each naming a child object by mode, path and
//! digest.
//!
//! A leaf is stored as its mode in five or six decimal digits, a space, the
//! path, a NUL and the twenty bytes of the digest. A tree's payload is its
//! leaves one after another, with nothing between them. Leaves keep the
//! order in which they are stored: nothing sorts them.

use vstd::prelude::*;
use vstd::slice::slice_subrange;
use vstd::utf8::valid_utf8;
use crate::bytes::append;
use crate::bytes::copy_range;
use crate::bytes::find_byte;
use crate::bytes::index_of;
use crate::bytes::lemma_find_byte;
use crate::bytes::lemma_find_byte_is;
use crate::bytes::NUL;
use crate::bytes::SPACE;
use crate::codec::Digest;
use crate::codec::DIGEST_LEN;
use crate::decimal::all_digits;
use crate::decimal::decimal_value;
use crate::decimal::is_digit;
use crate::decimal::lemma_decimal_value_bound;
use crate::decimal::lemma_padded_decimal;
use crate::decimal::padded_decimal;
use crate::decimal::parse_decimal;
use crate::decimal::pow10;
use crate::decimal::write_padded_decimal;
use crate::error::FormatError;
use crate::text::is_utf8;

verus! {

/// The largest mode that six digits can hold.
pub const MAX_MODE: u32 = 999_999;

/// One entry of a tree.
#[derive(Debug, PartialEq, Eq)]
pub struct TreeLeaf {
    pub mode: u32,
    pub path: Vec<u8>,
    pub digest: Digest,
}

/// What a leaf holds.
pub ghost struct LeafView {
    pub mode: nat,
    pub path: Seq<u8>,
    pub digest: Seq<u8>,
}

impl View for TreeLeaf {
    type V = LeafView;

    open spec fn view(&self) -> LeafView {
        LeafView { mode: self.mode as nat, path: self.path@, digest: self.digest@ }
    }
}

/// A tree object.
#[derive(Debug, PartialEq, Eq)]
pub struct Tree {
    pub leaves: Vec<TreeLeaf>,
}

impl View for Tree {
    type V = Seq<LeafView>;

    open spec fn view(&self) -> Seq<LeafView> {
        self.leaves@.map_values(|leaf: TreeLeaf| leaf@)
    }
}

impl Clone for TreeLeaf {
    fn clone(&self) -> (copy: TreeLeaf)
        ensures
            copy@ == self@,
    {
        let path = copy_range(self.path.as_slice(), 0, self.path.len());
        assert(path@ =~= self.path@);
        TreeLeaf { mode: self.mode, path, digest: self.digest }
    }
}

impl Clone for Tree {
    fn clone(&self) -> (copy: Tree)
        ensures
            copy@ == self@,
    {
        let mut leaves: Vec<TreeLeaf> = Vec::new();
        let mut i: usize = 0;
        while i < self.leaves.len()
            invariant
                i <= self.leaves@.len(),
                leaves@.len() == i,
                forall|j: int| 0 <= j < i ==> leaves@[j]@ == self.leaves@[j]@,
            decreases self.leaves@.len() - i,
        {
            leaves.push(self.leaves[i].clone());
            i += 1;
        }
        let copy = Tree { leaves };
        assert(copy@ =~= self@);
        copy
    }
}

/// True for a leaf that can be stored and read back: the mode fits in six
/// digits, the path is UTF-8 without a NUL, and the digest has twenty bytes.
pub open spec fn leaf_wf(leaf: LeafView) -> bool {
    &&& leaf.mode <= MAX_MODE
    &&& forall|i: int| 0 <= i < leaf.path.len() ==> leaf.path[i] != NUL
    &&& valid_utf8(leaf.path)
    &&& leaf.digest.len() == DIGEST_LEN
}

/// The slash that separates the segments of a path.
pub const SLASH: u8 = 0x2f;

/// The dot of which the names `.` and `..` are made.
pub const DOT: u8 = 0x2e;

/// True for a path that is one plain name: it is not empty, holds no slash,
/// and is neither `.` nor `..`. Only such a path names an entry of the
/// directory that it is created in.
pub open spec fn plain_segment(path: Seq<u8>) -> bool {
    &&& path.len() > 0
    &&& forall|i: int| 0 <= i < path.len() ==> path[i] != SLASH
    &&& path != seq![DOT]
    &&& path != seq![DOT, DOT]
}

/// Tells whether a path is one plain name.
pub fn segment_ok(path: &[u8]) -> (ok: bool)
    ensures
        ok == plain_segment(path@),
{
    if path.len() == 0 {
        return false;
    }
    let slash = index_of(path, SLASH, 0);
    proof {
        lemma_find_byte(path@, SLASH, 0);
    }
    if slash < path.len() {
        return false;
    }
    if path.len() == 1 && path[0] == DOT {
        assert(path@ =~= seq![DOT]);
        return false;
    }
    if path.len() == 2 && path[0] == DOT && path[1] == DOT {
        assert(path@ =~= seq![DOT, DOT]);
        return false;
    }
    proof {
        if path@ == seq![DOT] {
            assert(path@.len() == 1 && path@[0] == DOT);
        }
        if path@ == seq![DOT, DOT] {
            assert(path@.len() == 2 && path@[0] == DOT && path@[1] == DOT);
        }
    }
    true
}

/// True when every leaf is well formed.
pub open spec fn tree_wf(leaves: Seq<LeafView>) -> bool {
    forall|i: int| 0 <= i < leaves.len() ==> leaf_wf(#[trigger] leaves[i])
}

/// The digits of a mode: five of them, padded with zeros, for a mode below
/// 100000, else six.
pub open spec fn mode_field(mode: nat) -> Seq<u8> {
    if mode < 100_000 {
        padded_decimal(mode, 5)
    } else {
        padded_decimal(mode, 6)
    }
}

/// The stored form of one leaf.
pub open spec fn leaf_bytes(leaf: LeafView) -> Seq<u8> {
    mode_field(leaf.mode) + seq![SPACE] + leaf.path + seq![NUL] + leaf.digest
}

/// The payload of a tree: the stored forms of its leaves, in order.
pub open spec fn tree_bytes(leaves: Seq<LeafView>) -> Seq<u8>
    decreases leaves.len(),
{
    if leaves.len() == 0 {
        Seq::empty()
    } else {
        leaf_bytes(leaves[0]) + tree_bytes(leaves.drop_first())
    }
}

/// The leaf at the front of `s` and the number of bytes that it takes up.
///
/// The first space must stand at offset 5 or 6, after digits alone; the path
/// runs from there to the next NUL and must be UTF-8; twenty bytes of digest
/// follow.
pub open spec fn parse_leaf(s: Seq<u8>) -> Result<(LeafView, int), FormatError> {
    let space = find_byte(s, SPACE, 0);
    let nul = find_byte(s, NUL, space + 1);
    if space >= s.len() || (space != 5 && space != 6) {
        Err(FormatError::BadMode)
    } else if !all_digits(s.subrange(0, space)) {
        Err(FormatError::BadMode)
    } else if nul >= s.len() {
        Err(FormatError::MissingTerminator)
    } else if !valid_utf8(s.subrange(space + 1, nul)) {
        Err(FormatError::BadUtf8)
    } else if s.len() - (nul + 1) < DIGEST_LEN {
        Err(FormatError::TruncatedDigest)
    } else {
        Ok(
            (
                LeafView {
                    mode: decimal_value(s.subrange(0, space)),
                    path: s.subrange(space + 1, nul),
                    digest: s.subrange(nul + 1, nul + 1 + DIGEST_LEN),
                },
                nul + 1 + DIGEST_LEN,
            ),
        )
    }
}

/// The leaves of `front` followed by those of `back`, or the error of `back`.
pub open spec fn prepend_leaves(
    front: Seq<LeafView>,
    back: Result<Seq<LeafView>, FormatError>,
) -> Result<Seq<LeafView>, FormatError> {
    match back {
        Ok(leaves) => Ok(front + leaves),
        Err(e) => Err(e),
    }
}

/// The leaves that a tree payload holds. The empty payload is the empty
/// tree; any leaf that is cut short or malformed fails the whole payload.
pub open spec fn parse_tree(s: Seq<u8>) -> Result<Seq<LeafView>, FormatError>
    decreases s.len(),
    via parse_tree_decreases
{
    if s.len() == 0 {
        Ok(Seq::empty())
    } else {
        match parse_leaf(s) {
            Ok((leaf, taken)) => prepend_leaves(seq![leaf], parse_tree(s.skip(taken))),
            Err(e) => Err(e),
        }
    }
}

#[via_fn]
proof fn parse_tree_decreases(s: Seq<u8>) {
    if s.len() != 0 {
        lemma_parse_leaf(s);
    }
}

/// A leaf that parses is well formed and takes up a prefix of the input that
/// is no shorter than a mode, two separators and a digest.
pub proof fn lemma_parse_leaf(s: Seq<u8>)
    ensures
        parse_leaf(s) matches Ok((leaf, taken)) ==> {
            &&& leaf_wf(leaf)
            &&& 5 + 2 + DIGEST_LEN <= taken <= s.len()
        },
{
    let space = find_byte(s, SPACE, 0);
    lemma_find_byte(s, SPACE, 0);
    if space < s.len() {
        lemma_find_byte(s, NUL, space + 1);
        let field = s.subrange(0, space);
        if all_digits(field) {
            lemma_decimal_value_bound(field);
            lemma_pow10();
        }
        if let Ok((leaf, taken)) = parse_leaf(s) {
            let nul = find_byte(s, NUL, space + 1);
            assert forall|i: int| 0 <= i < leaf.path.len() implies leaf.path[i] != NUL by {
                assert(leaf.path[i] == s[space + 1 + i]);
            }
        }
    }
}

/// The powers of ten up to the sixth.
proof fn lemma_pow10()
    ensures
        pow10(5) == 100_000,
        pow10(6) == 1_000_000,
{
    reveal_with_fuel(pow10, 8);
}

/// The digits of a mode are five or six digits that denote the mode.
proof fn lemma_mode_field(mode: nat)
    requires
        mode <= MAX_MODE,
    ensures
        mode_field(mode).len() == 5 || mode_field(mode).len() == 6,
        all_digits(mode_field(mode)),
        decimal_value(mode_field(mode)) == mode,
{
    lemma_pow10();
    lemma_padded_decimal(mode, 5);
    lemma_padded_decimal(mode, 6);
}

/// A well-formed leaf's stored form, whatever follows it, parses to that
/// leaf and takes up exactly the stored form.
proof fn lemma_parse_leaf_bytes(leaf: LeafView, rest: Seq<u8>)
    requires
        leaf_wf(leaf),
    ensures
        parse_leaf(leaf_bytes(leaf) + rest) == Ok::<(LeafView, int), FormatError>(
            (leaf, leaf_bytes(leaf).len() as int),
        ),
{
    let field = mode_field(leaf.mode);
    let s = leaf_bytes(leaf) + rest;
    let space = field.len() as int;
    let nul = space + 1 + leaf.path.len();
    lemma_mode_field(leaf.mode);
    assert forall|i: int| 0 <= i < space implies s[i] != SPACE by {
        assert(s[i] == field[i]);
        assert(is_digit(field[i]));
    }
    assert(s[space] == SPACE);
    lemma_find_byte_is(s, SPACE, 0, space);
    assert forall|i: int| space + 1 <= i < nul implies s[i] != NUL by {
        assert(s[i] == leaf.path[i - space - 1]);
    }
    assert(s[nul] == NUL);
    lemma_find_byte_is(s, NUL, space + 1, nul);
    assert(s.subrange(0, space) =~= field);
    assert(s.subrange(space + 1, nul) =~= leaf.path);
    assert(s.subrange(nul + 1, nul + 1 + DIGEST_LEN) =~= leaf.digest);
}

/// Well-formed leaves in stored form, followed by any bytes, parse to those
/// leaves followed by whatever the bytes parse to.
pub proof fn lemma_parse_tree_append(leaves: Seq<LeafView>, rest: Seq<u8>)
    requires
        tree_wf(leaves),
    ensures
        parse_tree(tree_bytes(leaves) + rest) == prepend_leaves(leaves, parse_tree(rest)),
    decreases leaves.len(),
{
    if leaves.len() == 0 {
        assert(tree_bytes(leaves) + rest =~= rest);
        match parse_tree(rest) {
            Ok(back) => {
                assert(leaves + back =~= back);
            },
            Err(_) => {},
        }
    } else {
        let first = leaves[0];
        let others = leaves.drop_first();
        let tail = tree_bytes(others) + rest;
        let s = tree_bytes(leaves) + rest;
        assert(s =~= leaf_bytes(first) + tail);
        assert(leaf_wf(first));
        lemma_parse_leaf_bytes(first, tail);
        assert(s.skip(leaf_bytes(first).len() as int) =~= tail);
        assert(tree_wf(others)) by {
            assert forall|i: int| 0 <= i < others.len() implies leaf_wf(#[trigger] others[i]) by {
                assert(others[i] == leaves[i + 1]);
            }
        }
        lemma_parse_tree_append(others, rest);
        match parse_tree(rest) {
            Ok(back) => {
                assert(seq![first] + (others + back) =~= leaves + back);
            },
            Err(_) => {},
        }
    }
}

/// A stored tree reads back as itself.
pub proof fn lemma_tree_round_trip(leaves: Seq<LeafView>)
    requires
        tree_wf(leaves),
    ensures
        parse_tree(tree_bytes(leaves)) == Ok::<Seq<LeafView>, FormatError>(leaves),
{
    lemma_parse_tree_append(leaves, Seq::empty());
    assert(tree_bytes(leaves) + Seq::<u8>::empty() =~= tree_bytes(leaves));
    assert(leaves + Seq::<LeafView>::empty() =~= leaves);
}

/// Every leaf of a tree that parses is well formed.
pub proof fn lemma_parse_tree_wf(s: Seq<u8>)
    ensures
        parse_tree(s) matches Ok(leaves) ==> tree_wf(leaves),
    decreases s.len(),
{
    if s.len() != 0 {
        lemma_parse_leaf(s);
        if let Ok((leaf, taken)) = parse_leaf(s) {
            lemma_parse_tree_wf(s.skip(taken));
            if let Ok(back) = parse_tree(s.skip(taken)) {
                let leaves = seq![leaf] + back;
                assert forall|i: int| 0 <= i < leaves.len() implies leaf_wf(
                    #[trigger] leaves[i],
                ) by {
                    if i > 0 {
                        assert(leaves[i] == back[i - 1]);
                    }
                }
            }
        }
    }
}

/// Writing a tree that was read takes no more bytes than the payload that
/// it was read from: a mode may lose a leading zero, and nothing else
/// changes.
pub proof fn lemma_tree_bytes_len(s: Seq<u8>)
    ensures
        parse_tree(s) matches Ok(leaves) ==> tree_bytes(leaves).len() <= s.len(),
    decreases s.len(),
{
    if s.len() != 0 {
        lemma_parse_leaf(s);
        if let Ok((leaf, taken)) = parse_leaf(s) {
            lemma_tree_bytes_len(s.skip(taken));
            if let Ok(back) = parse_tree(s.skip(taken)) {
                let leaves = seq![leaf] + back;
                assert(leaves[0] == leaf);
                assert(leaves.drop_first() =~= back);
                let space = find_byte(s, SPACE, 0);
                let nul = find_byte(s, NUL, space + 1);
                lemma_find_byte(s, SPACE, 0);
                lemma_find_byte(s, NUL, space + 1);
                lemma_decimal_value_bound(s.subrange(0, space));
                lemma_pow10();
                lemma_padded_decimal(leaf.mode, 5);
                lemma_padded_decimal(leaf.mode, 6);
                assert(mode_field(leaf.mode).len() <= space);
                assert(leaf.path.len() == nul - space - 1);
                assert(leaf_bytes(leaf).len() <= taken);
            }
        }
    }
}

/// A payload fails with `BadMode` when, after any number of sound leaves, at
/// least one byte is left and the first space in what is left does not stand
/// at offset 5 or 6.
pub proof fn lemma_bad_mode(leaves: Seq<LeafView>, rest: Seq<u8>)
    requires
        tree_wf(leaves),
        rest.len() > 0,
        find_byte(rest, SPACE, 0) >= rest.len() || (find_byte(rest, SPACE, 0) != 5 && find_byte(
            rest,
            SPACE,
            0,
        ) != 6),
    ensures
        parse_tree(tree_bytes(leaves) + rest) == Err::<Seq<LeafView>, FormatError>(
            FormatError::BadMode,
        ),
{
    lemma_parse_tree_append(leaves, rest);
}

/// A payload fails with `TruncatedDigest` when, after any number of sound
/// leaves, it ends inside the digest of one more.
pub proof fn lemma_truncated_digest(leaves: Seq<LeafView>, last: LeafView, kept: int)
    requires
        tree_wf(leaves),
        leaf_wf(last),
        0 <= kept < DIGEST_LEN,
    ensures
        parse_tree(
            tree_bytes(leaves) + leaf_bytes(last).subrange(
                0,
                leaf_bytes(last).len() - DIGEST_LEN + kept,
            ),
        ) == Err::<Seq<LeafView>, FormatError>(FormatError::TruncatedDigest),
{
    let whole = leaf_bytes(last);
    let cut = whole.subrange(0, whole.len() - DIGEST_LEN + kept);
    let field = mode_field(last.mode);
    let space = field.len() as int;
    let nul = space + 1 + last.path.len();
    lemma_mode_field(last.mode);
    lemma_parse_tree_append(leaves, cut);
    assert forall|i: int| 0 <= i < space implies cut[i] != SPACE by {
        assert(cut[i] == field[i]);
        assert(is_digit(field[i]));
    }
    assert(cut[space] == SPACE);
    lemma_find_byte_is(cut, SPACE, 0, space);
    assert forall|i: int| space + 1 <= i < nul implies cut[i] != NUL by {
        assert(cut[i] == last.path[i - space - 1]);
    }
    assert(cut[nul] == NUL);
    lemma_find_byte_is(cut, NUL, space + 1, nul);
    assert(cut.subrange(0, space) =~= field);
    assert(cut.subrange(space + 1, nul) =~= last.path);
}

impl TreeLeaf {
    /// True for a leaf that can be stored and read back.
    pub open spec fn wf(&self) -> bool {
        leaf_wf(self@)
    }

    /// A leaf of the given parts; `None` unless the leaf is well formed.
    pub fn new(mode: u32, path: &[u8], digest: Digest) -> (r: Option<TreeLeaf>)
        ensures
            r is Some <==> leaf_wf(
                LeafView { mode: mode as nat, path: path@, digest: digest@ },
            ),
            r matches Some(leaf) ==> leaf@ == (LeafView {
                mode: mode as nat,
                path: path@,
                digest: digest@,
            }),
    {
        if mode > MAX_MODE {
            return None;
        }
        let nul = index_of(path, NUL, 0);
        proof {
            lemma_find_byte(path@, NUL, 0);
        }
        if nul < path.len() {
            return None;
        }
        if !is_utf8(path) {
            return None;
        }
        let owned = copy_range(path, 0, path.len());
        assert(owned@ =~= path@);
        Some(TreeLeaf { mode, path: owned, digest })
    }

    /// Appends the leaf's stored form to `out`. Six digits hold a mode: of a
    /// mode above `MAX_MODE`, which `new` and `deserialize` never give, only
    /// the last six are written.
    pub fn serialize(&self, out: &mut Vec<u8>)
        ensures
            final(out)@ == old(out)@ + leaf_bytes(self@),
    {
        if self.mode < 100_000 {
            write_padded_decimal(out, self.mode, 5);
        } else {
            write_padded_decimal(out, self.mode, 6);
        }
        out.push(SPACE);
        append(out, self.path.as_slice());
        out.push(NUL);
        append(out, self.digest.as_bytes());
        assert(out@ =~= old(out)@ + leaf_bytes(self@));
    }

    /// Reads the leaf at the front of `bytes` and returns it with the bytes
    /// that follow it.
    pub fn deserialize<'a>(bytes: &'a [u8]) -> (r: Result<(&'a [u8], TreeLeaf), FormatError>)
        ensures
            match r {
                Ok((rest, leaf)) => {
                    &&& parse_leaf(bytes@) == Ok::<(LeafView, int), FormatError>(
                        (leaf@, bytes@.len() - rest@.len()),
                    )
                    &&& rest@ == bytes@.skip(bytes@.len() - rest@.len())
                    &&& rest@.len() < bytes@.len()
                    &&& leaf.wf()
                },
                Err(e) => parse_leaf(bytes@) == Err::<(LeafView, int), FormatError>(e),
            },
    {
        proof {
            lemma_parse_leaf(bytes@);
        }
        let space = index_of(bytes, SPACE, 0);
        if space >= bytes.len() || (space != 5 && space != 6) {
            return Err(FormatError::BadMode);
        }
        let mode = match parse_decimal(bytes, 0, space) {
            Some(value) => value,
            None => {
                proof {
                    let field = bytes@.subrange(0, space as int);
                    if all_digits(field) {
                        lemma_decimal_value_bound(field);
                        lemma_pow10();
                    }
                }
                return Err(FormatError::BadMode);
            },
        };
        proof {
            lemma_decimal_value_bound(bytes@.subrange(0, space as int));
            lemma_pow10();
        }
        let nul = index_of(bytes, NUL, space + 1);
        if nul >= bytes.len() {
            return Err(FormatError::MissingTerminator);
        }
        if !is_utf8(slice_subrange(bytes, space + 1, nul)) {
            return Err(FormatError::BadUtf8);
        }
        if bytes.len() - (nul + 1) < DIGEST_LEN {
            return Err(FormatError::TruncatedDigest);
        }
        let end = nul + 1 + DIGEST_LEN;
        let digest = match Digest::from_bytes(slice_subrange(bytes, nul + 1, end)) {
            Some(digest) => digest,
            None => {
                return Err(FormatError::TruncatedDigest);
            },
        };
        let path = copy_range(bytes, space + 1, nul);
        let rest = slice_subrange(bytes, end, bytes.len());
        let leaf = TreeLeaf { mode: mode as u32, path, digest };
        assert(rest@ =~= bytes@.skip(end as int));
        Ok((rest, leaf))
    }
}

impl Tree {
    /// True when every leaf can be stored and read back.
    pub open spec fn wf(&self) -> bool {
        tree_wf(self@)
    }

    /// The tree that a payload holds.
    pub fn deserialize(bytes: &[u8]) -> (r: Result<Tree, FormatError>)
        ensures
            match r {
                Ok(tree) => parse_tree(bytes@) == Ok::<Seq<LeafView>, FormatError>(tree@)
                    && tree.wf(),
                Err(e) => parse_tree(bytes@) == Err::<Seq<LeafView>, FormatError>(e),
            },
    {
        let mut leaves: Vec<TreeLeaf> = Vec::new();
        let mut rest = bytes;
        proof {
            let none = leaves@.map_values(|leaf: TreeLeaf| leaf@);
            match parse_tree(bytes@) {
                Ok(all) => {
                    assert(none + all =~= all);
                },
                Err(_) => {},
            }
        }
        while rest.len() > 0
            invariant
                parse_tree(bytes@) == prepend_leaves(
                    leaves@.map_values(|leaf: TreeLeaf| leaf@),
                    parse_tree(rest@),
                ),
            decreases rest@.len(),
        {
            let ghost before = leaves@.map_values(|leaf: TreeLeaf| leaf@);
            let ghost input = rest@;
            match TreeLeaf::deserialize(rest) {
                Ok((after, leaf)) => {
                    leaves.push(leaf);
                    rest = after;
                    proof {
                        let now = leaves@.map_values(|leaf: TreeLeaf| leaf@);
                        assert(now =~= before.push(leaf@));
                        match parse_tree(after@) {
                            Ok(back) => {
                                assert(before + (seq![leaf@] + back) =~= now + back);
                            },
                            Err(_) => {},
                        }
                    }
                },
                Err(e) => {
                    return Err(e);
                },
            }
        }
        let tree = Tree { leaves };
        proof {
            assert(tree@ + Seq::<LeafView>::empty() =~= tree@);
            lemma_parse_tree_wf(bytes@);
        }
        Ok(tree)
    }

    /// The tree's payload.
    pub fn serialize(&self) -> (out: Vec<u8>)
        ensures
            out@ == tree_bytes(self@),
    {
        let mut out: Vec<u8> = Vec::new();
        let mut i: usize = 0;
        proof {
            assert(self@.skip(0) =~= self@);
            assert(out@ + tree_bytes(self@) =~= tree_bytes(self@));
        }
        while i < self.leaves.len()
            invariant
                i <= self.leaves@.len(),
                out@ + tree_bytes(self@.skip(i as int)) == tree_bytes(self@),
            decreases self.leaves@.len() - i,
        {
            let ghost before = out@;
            self.leaves[i].serialize(&mut out);
            proof {
                let left = self@.skip(i as int);
                assert(left[0] == self.leaves@[i as int]@);
                assert(left.drop_first() =~= self@.skip(i + 1));
                assert(out@ + tree_bytes(self@.skip(i + 1)) =~= before + tree_bytes(left));
            }
            i += 1;
        }
        assert(tree_bytes(self@.skip(i as int)) =~= Seq::<u8>::empty());
        assert(out@ + Seq::<u8>::empty() =~= out@);
        out
    }

    /// The leaves, in stored order.
    pub fn iterate_leaves(&self) -> (leaves: &[TreeLeaf])
        ensures
            leaves@ == self.leaves@,
    {
        self.leaves.as_slice()
    }
}

} // verus!
