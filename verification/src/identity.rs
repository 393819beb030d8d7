//! Stable opaque identities of locald project instances.

use crate::digest::append_bytes;
use crate::paths::{segments, segments_acc};
use crate::text::{hex_fixed, push_char, push_hex_fixed, push_str, str_chars};
use vstd::prelude::*;
use vstd::string::*;

verus! {

/// The stable identity of one locald project in one physical worktree.
///
/// The value is the 128-bit integer of the instance's UUID.
#[derive(Debug, Clone, Copy, PartialEq, Eq, Structural, PartialOrd, Ord, Hash)]
pub struct ProjectInstanceId {
    pub value: u128,
}

impl ProjectInstanceId {
    /// Build an identity from its UUID's 128-bit value.
    pub fn from_u128(value: u128) -> (r: Self)
        ensures
            r.value == value,
    {
        ProjectInstanceId { value }
    }

    /// Return the UUID's 128-bit value.
    pub fn as_u128(self) -> (r: u128)
        ensures
            r == self.value,
    {
        self.value
    }
}


/// The hyphenated lowercase text of a UUID's 128-bit value, in the
/// 8-4-4-4-12 digit groups.
pub open spec fn uuid_text(v: u128) -> Seq<char> {
    hex_fixed(v as nat / 0x1_0000_0000_0000_0000_0000_0000, 8) + seq!['-'] + hex_fixed(
        v as nat / 0x1_0000_0000_0000_0000_0000,
        4,
    ) + seq!['-'] + hex_fixed(v as nat / 0x1_0000_0000_0000_0000, 4) + seq!['-'] + hex_fixed(
        v as nat / 0x1_0000_0000_0000,
        4,
    ) + seq!['-'] + hex_fixed(v as nat, 12)
}

impl ProjectInstanceId {
    /// The identity's hyphenated lowercase UUID text.
    pub fn to_string(&self) -> (r: String)
        ensures
            r@ == uuid_text(self.value),
    {
        let v = self.value;
        let mut s = String::new();
        push_hex_fixed(&mut s, v / 0x1_0000_0000_0000_0000_0000_0000, 8);
        push_char(&mut s, '-');
        push_hex_fixed(&mut s, v / 0x1_0000_0000_0000_0000_0000, 4);
        push_char(&mut s, '-');
        push_hex_fixed(&mut s, v / 0x1_0000_0000_0000_0000, 4);
        push_char(&mut s, '-');
        push_hex_fixed(&mut s, v / 0x1_0000_0000_0000, 4);
        push_char(&mut s, '-');
        push_hex_fixed(&mut s, v, 12);
        assert(s@ =~= uuid_text(v));
        s
    }
}

/// The stable identity of one physical Git clone.
#[derive(Debug, Clone, Copy, PartialEq, Eq, Structural, PartialOrd, Ord, Hash)]
pub struct RepositoryId {
    pub value: u128,
}

/// The stable identity of one physical Git worktree.
#[derive(Debug, Clone, Copy, PartialEq, Eq, Structural, PartialOrd, Ord, Hash)]
pub struct WorktreeId {
    pub value: u128,
}

/// The stable identity of one repository-relative locald project.
#[derive(Debug, Clone, Copy, PartialEq, Eq, Structural, PartialOrd, Ord, Hash)]
pub struct ProjectId {
    pub value: u128,
}

impl RepositoryId {
    pub fn from_u128(value: u128) -> (r: Self)
        ensures
            r.value == value,
    {
        RepositoryId { value }
    }

    /// The identity's hyphenated lowercase UUID text.
    pub fn to_string(&self) -> (r: String)
        ensures
            r@ == uuid_text(self.value),
    {
        ProjectInstanceId { value: self.value }.to_string()
    }
}

impl WorktreeId {
    pub fn from_u128(value: u128) -> (r: Self)
        ensures
            r.value == value,
    {
        WorktreeId { value }
    }

    /// The identity's hyphenated lowercase UUID text.
    pub fn to_string(&self) -> (r: String)
        ensures
            r@ == uuid_text(self.value),
    {
        ProjectInstanceId { value: self.value }.to_string()
    }
}

impl ProjectId {
    pub fn from_u128(value: u128) -> (r: Self)
        ensures
            r.value == value,
    {
        ProjectId { value }
    }

    /// The identity's hyphenated lowercase UUID text.
    pub fn to_string(&self) -> (r: String)
        ensures
            r@ == uuid_text(self.value),
    {
        ProjectInstanceId { value: self.value }.to_string()
    }
}

/// An invalid textual opaque identity: the text and the parser's diagnostic.
#[derive(Debug, Clone, PartialEq, Eq)]
pub struct ParseIdentityError {
    pub value: String,
    pub reason: String,
}

impl ParseIdentityError {
    /// The error's message.
    pub fn message(&self) -> (r: String)
        ensures
            r@ == "invalid locald identity `"@ + self.value@ + "`: "@ + self.reason@,
    {
        let mut r = String::new();
        push_str(&mut r, "invalid locald identity `");
        push_str(&mut r, self.value.as_str());
        push_str(&mut r, "`: ");
        push_str(&mut r, self.reason.as_str());
        r
    }
}

/// Parse the UUID text of an opaque identity.
fn parse_identity_value(value: &str) -> (r: Result<u128, ParseIdentityError>)
    ensures
        match uuid_parse(value@) {
            Ok(v) => r == Ok::<u128, ParseIdentityError>(v),
            Err(m) => r matches Err(e) && e.value@ == value@ && e.reason@ == m,
        },
{
    match parse_uuid(value) {
        Ok(v) => Ok(v),
        Err(reason) => Err(ParseIdentityError { value: String::from_str(value), reason }),
    }
}

impl ProjectInstanceId {
    /// Parse an identity from UUID text.
    pub fn from_str(value: &str) -> (r: Result<Self, ParseIdentityError>)
        ensures
            match uuid_parse(value@) {
                Ok(v) => r == Ok::<Self, ParseIdentityError>(Self { value: v }),
                Err(m) => r matches Err(e) && e.value@ == value@ && e.reason@ == m,
            },
    {
        match parse_identity_value(value) {
            Ok(v) => Ok(Self { value: v }),
            Err(e) => Err(e),
        }
    }
}

impl RepositoryId {
    /// Parse an identity from UUID text.
    pub fn from_str(value: &str) -> (r: Result<Self, ParseIdentityError>)
        ensures
            match uuid_parse(value@) {
                Ok(v) => r == Ok::<Self, ParseIdentityError>(Self { value: v }),
                Err(m) => r matches Err(e) && e.value@ == value@ && e.reason@ == m,
            },
    {
        match parse_identity_value(value) {
            Ok(v) => Ok(Self { value: v }),
            Err(e) => Err(e),
        }
    }
}

impl WorktreeId {
    /// Parse an identity from UUID text.
    pub fn from_str(value: &str) -> (r: Result<Self, ParseIdentityError>)
        ensures
            match uuid_parse(value@) {
                Ok(v) => r == Ok::<Self, ParseIdentityError>(Self { value: v }),
                Err(m) => r matches Err(e) && e.value@ == value@ && e.reason@ == m,
            },
    {
        match parse_identity_value(value) {
            Ok(v) => Ok(Self { value: v }),
            Err(e) => Err(e),
        }
    }
}

impl ProjectId {
    /// Parse an identity from UUID text.
    pub fn from_str(value: &str) -> (r: Result<Self, ParseIdentityError>)
        ensures
            match uuid_parse(value@) {
                Ok(v) => r == Ok::<Self, ParseIdentityError>(Self { value: v }),
                Err(m) => r matches Err(e) && e.value@ == value@ && e.reason@ == m,
            },
    {
        match parse_identity_value(value) {
            Ok(v) => Ok(Self { value: v }),
            Err(e) => Err(e),
        }
    }
}

/// The version number a UUID's 128-bit value carries.
pub open spec fn uuid_version(v: u128) -> int {
    (v as nat / 0x1000_0000_0000_0000_0000) as int % 16
}

/// The version number of a UUID value.
pub fn uuid_version_of(v: u128) -> (r: u128)
    ensures
        r as int == uuid_version(v),
{
    (v / 0x1000_0000_0000_0000_0000) % 16
}

/// The four identity levels associated with a Git-backed locald project.
#[derive(Debug, Clone, Copy, PartialEq, Eq, Structural)]
pub struct ProjectIdentity {
    pub repository_id: RepositoryId,
    pub worktree_id: WorktreeId,
    pub project_id: ProjectId,
    pub project_instance_id: ProjectInstanceId,
}

/// A stable identity together with its current filesystem locators.
#[derive(Debug, Clone, PartialEq, Eq)]
pub struct ResolvedProjectIdentity {
    pub identity: ProjectIdentity,
    pub common_git_dir: String,
    pub worktree_git_dir: String,
    pub worktree_root: String,
    pub project_root: String,
    pub repository_relative_project_root: String,
}

/// A failure to resolve or persist a stable Git-backed project identity.
#[derive(Debug, Clone, PartialEq, Eq)]
pub enum IdentityError {
    CanonicalizeProjectRoot { path: String, reason: String },
    NotGit { project_root: String },
    BrokenWorktree { project_root: String, git_locator: String, reason: String },
    UnrepairedWorktree { project_root: String, git_locator: String, recorded_worktree_root: String, reason: String },
    BareRepository { git_dir: String },
    CanonicalizeGitDirectory { kind: String, path: String, reason: String },
    ProjectOutsideWorktree { project_root: String, worktree_root: String },
    MarkerIo { operation: String, path: String, reason: String },
    InvalidMarker { path: String, reason: String },
    UnsupportedProjectPath { project_root: String, component: String },
}

/// The name-based UUID (version 5) of `name` in `namespace`.
pub uninterp spec fn uuid_v5(namespace: u128, name: Seq<u8>) -> u128;

/// `uuid::Uuid::new_v5`: the SHA-1 name-based UUID of `name` within the
/// namespace UUID, a function of both alone.
#[verifier::external_body]
fn new_v5(namespace: u128, name: &[u8]) -> (r: u128)
    ensures
        r == uuid_v5(namespace, name@),
{
    uuid::Uuid::new_v5(&uuid::Uuid::from_u128(namespace), name).as_u128()
}

/// The value whose hyphenated lowercase text `text` is, if any.
pub open spec fn canonical_uuid(text: Seq<char>) -> Option<u128> {
    if exists|v: u128| uuid_text(v) == text {
        Some(choose|v: u128| uuid_text(v) == text)
    } else {
        None
    }
}

/// What parsing a UUID from text gives: its value, or the parser's diagnostic.
pub uninterp spec fn uuid_parse(text: Seq<char>) -> Result<u128, Seq<char>>;

/// `uuid::Uuid::parse_str`: the UUID a text denotes in any of the formats
/// the crate accepts, or its error message; a function of the text alone.
/// The hyphenated lowercase form the crate prints parses back to its value.
#[verifier::external_body]
fn parse_uuid(text: &str) -> (r: Result<u128, String>)
    ensures
        (canonical_uuid(text@) is Some ==> r == Ok::<u128, String>(canonical_uuid(text@)->0)),
        match r {
            Ok(v) => uuid_parse(text@) == Ok::<u128, Seq<char>>(v),
            Err(m) => uuid_parse(text@) == Err::<u128, Seq<char>>(m@),
        },
{
    match uuid::Uuid::parse_str(text) {
        Ok(u) => Ok(u.as_u128()),
        Err(e) => Err(e.to_string()),
    }
}

/// The components of a repository-relative root: `Ok` with its normal
/// components, or `Err` with the first component that is not a plain name
/// (a leading root, a leading `.`, or a `..`). Empty and interior `.`
/// segments are not components.
pub open spec fn relative_components(root: Seq<char>) -> Result<Seq<Seq<char>>, Seq<char>> {
    if root.len() > 0 && root[0] == '/' {
        Err("RootDir"@)
    } else if segments(root)[0] == "."@ {
        Err("CurDir"@)
    } else {
        normal_components(segments(root))
    }
}

/// Plain segments, stopping at the first `..`.
pub open spec fn normal_components(parts: Seq<Seq<char>>) -> Result<Seq<Seq<char>>, Seq<char>>
    decreases parts.len(),
{
    if parts.len() == 0 {
        Ok(Seq::empty())
    } else if parts[0] == ".."@ {
        Err("ParentDir"@)
    } else {
        match normal_components(parts.drop_first()) {
            Ok(rest) => if parts[0].len() == 0 || parts[0] == "."@ {
                Ok(rest)
            } else {
                Ok(seq![parts[0]] + rest)
            },
            Err(e) => Err(e),
        }
    }
}

/// The low `k` bytes of `v`, most significant first.
pub open spec fn bytes_be(v: nat, k: nat) -> Seq<u8>
    decreases k,
{
    if k == 0 {
        Seq::empty()
    } else {
        bytes_be(v / 256, (k - 1) as nat).push((v % 256) as u8)
    }
}

/// The eight big-endian bytes of `n`.
pub open spec fn be64(n: nat) -> Seq<u8> {
    bytes_be(n, 8)
}

/// The framed components: each as its byte length, then its UTF-8 bytes.
pub open spec fn framed(parts: Seq<Seq<char>>) -> Seq<u8>
    decreases parts.len(),
{
    if parts.len() == 0 {
        Seq::empty()
    } else {
        framed(parts.drop_last()) + be64(vstd::utf8::encode_utf8(parts.last()).len()) + vstd::utf8::encode_utf8(parts.last())
    }
}

/// The name a project identity is derived from.
pub open spec fn project_id_name(parts: Seq<Seq<char>>) -> Seq<u8> {
    vstd::utf8::encode_utf8("locald-project-v1\0"@) + framed(parts)
}

/// The 16 big-endian bytes of a UUID value.
pub open spec fn uuid_bytes(v: u128) -> Seq<u8> {
    bytes_be(v as nat, 16)
}

/// The name a project-instance identity is derived from.
pub open spec fn instance_id_name(project_id: ProjectId) -> Seq<u8> {
    vstd::utf8::encode_utf8("locald-instance-v1\0"@) + uuid_bytes(project_id.value)
}

/// Append the low `k` bytes of `x`, most significant first.
fn push_bytes_be(v: &mut Vec<u8>, x: u128, k: u8)
    ensures
        final(v)@ == old(v)@ + bytes_be(x as nat, k as nat),
    decreases k,
{
    let ghost v0 = v@;
    if k > 0 {
        push_bytes_be(v, x / 256, k - 1);
        v.push((x % 256) as u8);
    }
    assert(v@ =~= v0 + bytes_be(x as nat, k as nat));
}


/// The characters between separators, as an exec list matching `segments`.
fn split_segments(s: &Vec<char>) -> (r: Vec<Vec<char>>)
    ensures
        r@.map_values(|x: Vec<char>| x@) == segments(s@),
{
    let mut done: Vec<Vec<char>> = Vec::new();
    let mut cur: Vec<char> = Vec::new();
    let mut i: usize = 0;
    proof {
        assert(s@.take(0) =~= Seq::<char>::empty());
        assert(done@.map_values(|x: Vec<char>| x@) =~= Seq::<Seq<char>>::empty());
    }
    while i < s.len()
        invariant
            i <= s@.len(),
            (done@.map_values(|x: Vec<char>| x@), cur@) == segments_acc(s@.take(i as int)),
        decreases s@.len() - i,
    {
        proof {
            assert(s@.take(i + 1).drop_last() =~= s@.take(i as int));
            assert(s@.take(i + 1).last() == s@[i as int]);
        }
        let ghost before = done@.map_values(|x: Vec<char>| x@);
        if s[i] == '/' {
            let seg = cur;
            cur = Vec::new();
            done.push(seg);
            proof {
                assert(done@.map_values(|x: Vec<char>| x@) =~= before.push(done@[done@.len() - 1]@));
            }
        } else {
            cur.push(s[i]);
            proof {
                assert(done@.map_values(|x: Vec<char>| x@) =~= before);
            }
        }
        i = i + 1;
    }
    proof {
        assert(s@.take(s@.len() as int) =~= s@);
    }
    let ghost before = done@.map_values(|x: Vec<char>| x@);
    done.push(cur);
    proof {
        assert(done@.map_values(|x: Vec<char>| x@) =~= before.push(done@[done@.len() - 1]@));
    }
    done
}

fn chars_are(v: &Vec<char>, lit: &str) -> (r: bool)
    ensures
        r == (v@ == lit@),
{
    let l = str_chars(lit);
    crate::text::compare_chars(v.as_slice(), l.as_slice()) == 0
}

/// The plain components of a repository-relative root, or the first
/// component that is not a plain name.
pub fn relative_root_components(root: &str) -> (r: Result<Vec<String>, String>)
    ensures
        match r {
            Ok(v) => relative_components(root@) == Ok::<Seq<Seq<char>>, Seq<char>>(v@.map_values(|x: String| x@)),
            Err(c) => relative_components(root@) == Err::<Seq<Seq<char>>, Seq<char>>(c@),
        },
{
    let chars = str_chars(root);
    if chars.len() > 0 && chars[0] == '/' {
        return Err(String::from_str("RootDir"));
    }
    let parts = split_segments(&chars);
    let ghost pv = parts@.map_values(|x: Vec<char>| x@);
    proof {
        assert(pv.len() >= 1);
        assert(pv[0] == parts@[0]@);
    }
    if chars_are(&parts[0], ".") {
        return Err(String::from_str("CurDir"));
    }
    let mut out: Vec<String> = Vec::new();
    let mut i: usize = parts.len();
    proof {
        assert(relative_components(root@) == normal_components(pv));
        assert(pv.skip(pv.len() as int) =~= Seq::<Seq<char>>::empty());
        assert(out@.map_values(|x: String| x@) =~= Seq::<Seq<char>>::empty());
    }
    while i > 0
        invariant
            i <= parts@.len(),
            pv == parts@.map_values(|x: Vec<char>| x@),
            relative_components(root@) == normal_components(pv),
            normal_components(pv.skip(i as int)) == Ok::<Seq<Seq<char>>, Seq<char>>(out@.map_values(|x: String| x@)),
        decreases i,
    {
        let k = i - 1;
        proof {
            assert(pv.skip(k as int).drop_first() =~= pv.skip(i as int));
            assert(pv.skip(k as int)[0] == parts@[k as int]@);
        }
        if chars_are(&parts[k], "..") {
            proof {
                assert(pv[k as int] == parts@[k as int]@);
                lemma_parent_anywhere(pv, k as int);
            }
            return Err(String::from_str("ParentDir"));
        }
        if parts[k].len() > 0 && !chars_are(&parts[k], ".") {
            let text = crate::text::chars_to_string(parts[k].as_slice());
            let ghost prev = out@.map_values(|x: String| x@);
            out.insert(0, text);
            proof {
                assert(out@.map_values(|x: String| x@) =~= seq![parts@[k as int]@] + prev);
            }
        }
        i = k;
    }
    proof {
        assert(pv.skip(0) =~= pv);
    }
    Ok(out)
}

/// A `..` anywhere in the segments makes them unsupported.
proof fn lemma_parent_anywhere(parts: Seq<Seq<char>>, k: int)
    requires
        0 <= k < parts.len(),
        parts[k] == ".."@,
    ensures
        normal_components(parts) == Err::<Seq<Seq<char>>, Seq<char>>("ParentDir"@),
    decreases k,
{
    if k > 0 {
        assert(parts.drop_first()[k - 1] == parts[k]);
        lemma_parent_anywhere(parts.drop_first(), k - 1);
    }
}

/// Derive a project's identity from its repository and repository-relative
/// root: a name-based UUID of the framed components.
pub fn derive_project_id(repository_id: RepositoryId, relative_root: &str, project_root: &str) -> (r: Result<
    ProjectId,
    IdentityError,
>)
    ensures
        match relative_components(relative_root@) {
            Ok(parts) => r == Ok::<ProjectId, IdentityError>(
                ProjectId { value: uuid_v5(repository_id.value, project_id_name(parts)) },
            ),
            Err(c) => r matches Err(IdentityError::UnsupportedProjectPath { project_root: p, component }) && p@
                == project_root@ && component@ == c,
        },
{
    let parts = match relative_root_components(relative_root) {
        Ok(parts) => parts,
        Err(component) => {
            return Err(IdentityError::UnsupportedProjectPath { project_root: String::from_str(project_root), component });
        },
    };
    let ghost pv = parts@.map_values(|x: String| x@);
    let mut name: Vec<u8> = Vec::new();
    append_bytes(&mut name, "locald-project-v1\0".as_bytes());
    let ghost head = name@;
    let mut i: usize = 0;
    proof {
        assert(pv.take(0) =~= Seq::<Seq<char>>::empty());
        assert(name@ =~= head + framed(pv.take(0)));
    }
    while i < parts.len()
        invariant
            i <= parts@.len(),
            pv == parts@.map_values(|x: String| x@),
            name@ == head + framed(pv.take(i as int)),
        decreases parts@.len() - i,
    {
        let bytes = parts[i].as_str().as_bytes();
        push_bytes_be(&mut name, bytes.len() as u128, 8);
        append_bytes(&mut name, bytes);
        proof {
            assert(pv.take(i + 1).drop_last() =~= pv.take(i as int));
            assert(pv.take(i + 1).last() == parts@[i as int]@);
            assert(name@ =~= head + framed(pv.take(i + 1)));
        }
        i = i + 1;
    }
    proof {
        assert(pv.take(pv.len() as int) =~= pv);
    }
    Ok(ProjectId { value: new_v5(repository_id.value, name.as_slice()) })
}

/// Derive a project instance's identity from its worktree and project.
pub fn derive_project_instance_id(worktree_id: WorktreeId, project_id: ProjectId) -> (r: ProjectInstanceId)
    ensures
        r.value == uuid_v5(worktree_id.value, instance_id_name(project_id)),
{
    let mut name: Vec<u8> = Vec::new();
    append_bytes(&mut name, "locald-instance-v1\0".as_bytes());
    push_bytes_be(&mut name, project_id.value, 16);
    ProjectInstanceId { value: new_v5(worktree_id.value, name.as_slice()) }
}

/// The identity a marker file holds, or why it is malformed: exactly one
/// line `v1 <uuid>` ending in a newline, naming a version-4 UUID.
pub open spec fn spec_parse_marker(contents: Seq<char>) -> Result<u128, Seq<char>> {
    if contents.len() == 0 || contents.last() != '\n' {
        Err("marker must end with one newline"@)
    } else if contents.drop_last().contains('\n') || contents.drop_last().contains('\r') {
        Err("marker must contain exactly one line"@)
    } else if !crate::text::starts_with(contents.drop_last(), "v1 "@) {
        Err("expected `v1 <uuid>`"@)
    } else {
        match uuid_parse(contents.drop_last().skip(3)) {
            Err(m) => Err("invalid UUID: "@ + m),
            Ok(u) => if uuid_version(u) != 4 {
                Err("persisted marker UUID must be version 4"@)
            } else {
                Ok(u)
            },
        }
    }
}

/// Where a repository's identity marker lives beneath its common Git
/// directory.
pub fn repository_marker_path(common_git_dir: &str) -> (r: String)
    ensures
        r@ == crate::paths::path_join(crate::paths::path_join(common_git_dir@, "locald"@), "repository-id"@),
{
    let directory = crate::paths::join_path(common_git_dir, "locald");
    crate::paths::join_path(directory.as_str(), "repository-id")
}

/// Where a worktree's identity marker lives beneath its Git directory.
pub fn worktree_marker_path(worktree_git_dir: &str) -> (r: String)
    ensures
        r@ == crate::paths::path_join(crate::paths::path_join(worktree_git_dir@, "locald"@), "worktree-id"@),
{
    let directory = crate::paths::join_path(worktree_git_dir, "locald");
    crate::paths::join_path(directory.as_str(), "worktree-id")
}

/// Parse a persisted identity marker.
pub fn parse_marker(path: &str, contents: &str) -> (r: Result<u128, IdentityError>)
    ensures
        match spec_parse_marker(contents@) {
            Ok(u) => r == Ok::<u128, IdentityError>(u),
            Err(reason) => r matches Err(IdentityError::InvalidMarker { path: p, reason: m }) && p@ == path@ && m@ == reason,
        },
{
    let c = str_chars(contents);
    if c.len() == 0 || c[c.len() - 1] != '\n' {
        return Err(invalid_marker(path, "marker must end with one newline"));
    }
    let n = c.len() - 1;
    let mut i: usize = 0;
    while i < n
        invariant
            n == c@.len() - 1,
            i <= n,
            c@ == contents@,
            c@[n as int] == '\n',
            forall|j: int| 0 <= j < i ==> c@[j] != '\n' && c@[j] != '\r',
        decreases n - i,
    {
        if c[i] == '\n' || c[i] == '\r' {
            proof {
                let p = c@.drop_last();
                assert(p[i as int] == c@[i as int]);
                assert(p.contains(c@[i as int]));
                assert(p.contains('\n') || p.contains('\r'));
            }
            return Err(invalid_marker(path, "marker must contain exactly one line"));
        }
        i = i + 1;
    }
    proof {
        let p = c@.drop_last();
        assert(!p.contains('\n') && !p.contains('\r')) by {
            assert forall|j: int| 0 <= j < p.len() implies p[j] != '\n' && p[j] != '\r' by {
                assert(p[j] == c@[j]);
            }
        }
        reveal_strlit("v1 ");
        assert("v1 "@ =~= seq!['v', '1', ' ']);
        if p.len() >= 3 {
            assert(p.subrange(0, 3) =~= seq![p[0], p[1], p[2]]);
            if crate::text::starts_with(p, "v1 "@) {
                assert(p.subrange(0, 3)[0] == 'v' && p.subrange(0, 3)[1] == '1' && p.subrange(0, 3)[2] == ' ');
            }
        }
    }
    if !(n >= 3 && c[0] == 'v' && c[1] == '1' && c[2] == ' ') {
        return Err(invalid_marker(path, "expected `v1 <uuid>`"));
    }
    let mut value: Vec<char> = Vec::new();
    let mut k: usize = 3;
    while k < n
        invariant
            3 <= k <= n,
            n == c@.len() - 1,
            value@ == c@.drop_last().subrange(3, k as int),
        decreases n - k,
    {
        value.push(c[k]);
        k = k + 1;
        assert(value@ =~= c@.drop_last().subrange(3, k as int));
    }
    let text = crate::text::chars_to_string(value.as_slice());
    proof {
        assert(c@.drop_last().subrange(3, n as int) =~= c@.drop_last().skip(3));
    }
    match parse_uuid(text.as_str()) {
        Err(m) => {
            let mut reason = String::new();
            push_str(&mut reason, "invalid UUID: ");
            push_str(&mut reason, m.as_str());
            Err(IdentityError::InvalidMarker { path: String::from_str(path), reason })
        },
        Ok(u) => {
            if uuid_version_of(u) != 4 {
                return Err(invalid_marker(path, "persisted marker UUID must be version 4"));
            }
            Ok(u)
        },
    }
}

/// The text of a persisted identity marker.
pub open spec fn marker_text(v: u128) -> Seq<char> {
    "v1 "@ + uuid_text(v) + seq!['\n']
}

/// The payload written into a new identity marker.
pub fn marker_payload(v: u128) -> (r: String)
    ensures
        r@ == marker_text(v),
{
    let mut r = String::new();
    push_str(&mut r, "v1 ");
    let t = ProjectInstanceId { value: v }.to_string();
    push_str(&mut r, t.as_str());
    push_char(&mut r, '\n');
    r
}

/// Hexadecimal digits are never line breaks.
proof fn lemma_hex_fixed_single_line(v: nat, n: nat)
    ensures
        forall|i: int| 0 <= i < hex_fixed(v, n).len() ==> hex_fixed(v, n)[i] != '\n' && hex_fixed(v, n)[i] != '\r',
        forall|i: int| 0 <= i < hex_fixed(v, n).len() ==> (hex_fixed(v, n)[i] as u32) < 128,
        hex_fixed(v, n).len() == n,
    decreases n,
{
    if n > 0 {
        lemma_hex_fixed_single_line(v / 16, (n - 1) as nat);
    }
}

/// UUID text is 36 ASCII characters.
pub proof fn lemma_uuid_text_shape(v: u128)
    ensures
        uuid_text(v).len() == 36,
        crate::text::all_ascii(uuid_text(v)),
{
    lemma_hex_fixed_single_line(v as nat / 0x1_0000_0000_0000_0000_0000_0000, 8);
    lemma_hex_fixed_single_line(v as nat / 0x1_0000_0000_0000_0000_0000, 4);
    lemma_hex_fixed_single_line(v as nat / 0x1_0000_0000_0000_0000, 4);
    lemma_hex_fixed_single_line(v as nat / 0x1_0000_0000_0000, 4);
    lemma_hex_fixed_single_line(v as nat, 12);
    let t = uuid_text(v);
    assert forall|i: int| 0 <= i < t.len() implies (t[i] as u32) < 128 by {
        let a = hex_fixed(v as nat / 0x1_0000_0000_0000_0000_0000_0000, 8);
        let b = hex_fixed(v as nat / 0x1_0000_0000_0000_0000_0000, 4);
        let c = hex_fixed(v as nat / 0x1_0000_0000_0000_0000, 4);
        let d = hex_fixed(v as nat / 0x1_0000_0000_0000, 4);
        let e = hex_fixed(v as nat, 12);
        assert(t == a + seq!['-'] + b + seq!['-'] + c + seq!['-'] + d + seq!['-'] + e);
        if i < 8 {
            assert(t[i] == a[i]);
        } else if i == 8 {
        } else if i < 13 {
            assert(t[i] == b[i - 9]);
        } else if i == 13 {
        } else if i < 18 {
            assert(t[i] == c[i - 14]);
        } else if i == 18 {
        } else if i < 23 {
            assert(t[i] == d[i - 19]);
        } else if i == 23 {
        } else {
            assert(t[i] == e[i - 24]);
        }
    }
}

/// UUID text is one line.
proof fn lemma_uuid_text_single_line(v: u128)
    ensures
        !uuid_text(v).contains('\n'),
        !uuid_text(v).contains('\r'),
{
    lemma_hex_fixed_single_line(v as nat / 0x1_0000_0000_0000_0000_0000_0000, 8);
    lemma_hex_fixed_single_line(v as nat / 0x1_0000_0000_0000_0000_0000, 4);
    lemma_hex_fixed_single_line(v as nat / 0x1_0000_0000_0000_0000, 4);
    lemma_hex_fixed_single_line(v as nat / 0x1_0000_0000_0000, 4);
    lemma_hex_fixed_single_line(v as nat, 12);
}

/// A marker written for an identity hands the parser exactly the identity's
/// UUID text, so where that text parses back to the identity and the
/// identity is a version-4 UUID, reading the marker yields the identity.
pub proof fn lemma_marker_round_trip(v: u128)
    requires
        uuid_version(v) == 4,
    ensures
        uuid_parse(uuid_text(v)) == Ok::<u128, Seq<char>>(v) ==> spec_parse_marker(marker_text(v)) == Ok::<u128, Seq<char>>(v),
{
    let t = uuid_text(v);
    let m = marker_text(v);
    lemma_uuid_text_single_line(v);
    reveal_strlit("v1 ");
    assert(m.drop_last() =~= "v1 "@ + t);
    assert(m.last() == '\n');
    assert(m.drop_last().skip(3) =~= t);
    assert(m.drop_last().subrange(0, 3) =~= "v1 "@);
    if m.drop_last().contains('\n') {
        let j = choose|j: int| 0 <= j < m.drop_last().len() && m.drop_last()[j] == '\n';
        assert(j >= 3);
        assert(t[j - 3] == '\n');
    }
    if m.drop_last().contains('\r') {
        let j = choose|j: int| 0 <= j < m.drop_last().len() && m.drop_last()[j] == '\r';
        assert(j >= 3);
        assert(t[j - 3] == '\r');
    }
}

/// The four identities of a Git-backed project, from its repository and
/// worktree identities and its repository-relative root.
pub fn project_identity(
    repository_id: RepositoryId,
    worktree_id: WorktreeId,
    relative_root: &str,
    project_root: &str,
) -> (r: Result<ProjectIdentity, IdentityError>)
    ensures
        match relative_components(relative_root@) {
            Ok(parts) => r == Ok::<ProjectIdentity, IdentityError>(
                ProjectIdentity {
                    repository_id,
                    worktree_id,
                    project_id: ProjectId { value: uuid_v5(repository_id.value, project_id_name(parts)) },
                    project_instance_id: ProjectInstanceId {
                        value: uuid_v5(
                            worktree_id.value,
                            instance_id_name(ProjectId { value: uuid_v5(repository_id.value, project_id_name(parts)) }),
                        ),
                    },
                },
            ),
            Err(c) => r matches Err(IdentityError::UnsupportedProjectPath { project_root: p, component }) && p@
                == project_root@ && component@ == c,
        },
{
    let project_id = match derive_project_id(repository_id, relative_root, project_root) {
        Ok(p) => p,
        Err(e) => {
            return Err(e);
        },
    };
    let project_instance_id = derive_project_instance_id(worktree_id, project_id);
    Ok(ProjectIdentity { repository_id, worktree_id, project_id, project_instance_id })
}

fn invalid_marker(path: &str, reason: &str) -> (r: IdentityError)
    ensures
        r matches IdentityError::InvalidMarker { path: p, reason: m } && p@ == path@ && m@ == reason@,
{
    IdentityError::InvalidMarker { path: String::from_str(path), reason: String::from_str(reason) }
}
} // verus!
