//! What makes files and snapshots the same.
//!
//! Identities hold no absolute path: they are the same wherever a cache is placed.

use crate::digest;
use crate::lazy_type;
use crate::path;
use crate::path::{Component, Part, Path};
use crate::text;
use vstd::prelude::*;

verus! {

/// The text that lossy UTF-8 decoding gives for bytes.
pub uninterp spec fn lossy_text(bytes: Seq<u8>) -> Seq<char>;

/// `String::from_utf8_lossy`: the text of the bytes, with replacement characters where they are
/// not UTF-8; valid UTF-8 is decoded as it is.
#[verifier::external_body]
pub(crate) fn lossy_string(bytes: &Vec<u8>) -> (s: String)
    ensures
        s@ == lossy_text(bytes@),
        vstd::utf8::valid_utf8(bytes@) ==> s@ == vstd::utf8::decode_utf8(bytes@),
{
    String::from_utf8_lossy(bytes).into_owned()
}

/// The version of the meaning of snapshot keys.
pub const SNAPSHOT_KEY_SCHEMA: u8 = 1;

/// The identity of a snapshot of a repository.
#[derive(Debug)]
pub struct RepoSnapshotIdentity {
    /// Where the repository lies among all repositories.
    pub repo_cache_dir: Path,
    /// The commit.
    pub head_rev: Vec<u8>,
    /// A digest of uncommitted changes, if there are any.
    pub dirty_diff: Option<u128>,
    /// The build commands.
    pub build: Vec<String>,
    /// The build script.
    pub lua_build: Option<String>,
}

/// What a snapshot identity is, mathematically.
pub struct Snapshot {
    pub repo_cache_dir: Seq<Part>,
    pub head_rev: Seq<u8>,
    pub dirty_diff: Option<u128>,
    pub build: Seq<Seq<char>>,
    pub lua_build: Option<Seq<char>>,
}

impl View for RepoSnapshotIdentity {
    type V = Snapshot;

    open spec fn view(&self) -> Snapshot {
        Snapshot {
            repo_cache_dir: self.repo_cache_dir@,
            head_rev: self.head_rev@,
            dirty_diff: self.dirty_diff,
            build: text::strings(self.build@),
            lua_build: text::optional_string(self.lua_build),
        }
    }
}

/// The code of an optional text.
pub open spec fn optional_text_code(s: Option<Seq<char>>) -> Seq<u8> {
    digest::option_code(s, |s: Seq<char>| digest::text_code(s))
}

/// The code of an optional digest.
pub open spec fn optional_wide_code(n: Option<u128>) -> Seq<u8> {
    digest::option_code(n, |n: u128| digest::wide_code(n))
}

/// What the digest in a snapshot key is taken of.
pub open spec fn snapshot_key_code(s: Snapshot) -> Seq<u8> {
    seq![SNAPSHOT_KEY_SCHEMA] + digest::bytes_code(s.head_rev) + digest::texts_code(s.build)
        + optional_text_code(s.lua_build)
}

/// The directory name of a snapshot: the commit, and a digest of the build inputs where there
/// are any.
pub open spec fn snapshot_key_text(s: Snapshot) -> Seq<char> {
    if s.build.len() == 0 && s.lua_build is None {
        lossy_text(s.head_rev)
    } else {
        lossy_text(s.head_rev) + "__v1_"@ + digest::digest_text(
            digest::xxh3_digest(snapshot_key_code(s)),
        )
    }
}

/// The key of a snapshot is known before it is built: it depends on the commit and the build
/// inputs only, not on where the repository lies nor on what a build left behind.
pub proof fn law_snapshot_key_inputs(a: Snapshot, b: Snapshot)
    requires
        a.head_rev == b.head_rev,
        a.build == b.build,
        a.lua_build == b.lua_build,
    ensures
        snapshot_key_text(a) == snapshot_key_text(b),
{
}

/// A snapshot without build inputs is kept under its commit alone; one with any, a command or a
/// script, under its commit and a digest of them, and so under another name.
pub proof fn law_build_in_key(s: Snapshot)
    ensures
        s.build.len() == 0 && s.lua_build is None ==> snapshot_key_text(s) == lossy_text(s.head_rev),
        s.build.len() > 0 || s.lua_build is Some ==> {
            &&& snapshot_key_text(s) != lossy_text(s.head_rev)
            &&& snapshot_key_text(s).len() == lossy_text(s.head_rev).len() + 37
            &&& lossy_text(s.head_rev).is_prefix_of(snapshot_key_text(s))
            &&& snapshot_key_text(s).skip((lossy_text(s.head_rev).len() + 5) as int) == digest::digest_text(
                digest::xxh3_digest(snapshot_key_code(s)),
            )
        },
{
    reveal_strlit("__v1_");
    let head = lossy_text(s.head_rev);
    let key = snapshot_key_text(s);
    let found = digest::xxh3_digest(snapshot_key_code(s));
    digest::law_digest_text(found);
    if s.build.len() > 0 || s.lua_build is Some {
        assert(head =~= key.subrange(0, head.len() as int));
        assert(key.skip((head.len() + 5) as int) =~= digest::digest_text(found));
    }
}

/// Different commits or build inputs are digested from different codes.
pub proof fn law_snapshot_key_code(a: Snapshot, b: Snapshot)
    requires
        snapshot_key_code(a) == snapshot_key_code(b),
    ensures
        a.head_rev == b.head_rev,
        a.build == b.build,
        a.lua_build == b.lua_build,
{
    digest::lemma_bytes_code();
    digest::lemma_texts_code();
    lemma_optional_text_code();
    let bytes = |s: Seq<u8>| digest::bytes_code(s);
    let texts = |s: Seq<Seq<char>>| digest::texts_code(s);
    let last = |s: Option<Seq<char>>| optional_text_code(s);
    let one = seq![SNAPSHOT_KEY_SCHEMA];
    let ra = texts(a.build) + last(a.lua_build);
    let rb = texts(b.build) + last(b.lua_build);
    assert(snapshot_key_code(a).skip(1) =~= bytes(a.head_rev) + ra);
    assert(snapshot_key_code(b).skip(1) =~= bytes(b.head_rev) + rb);
    digest::lemma_read(bytes, a.head_rev, b.head_rev, ra, rb);
    digest::lemma_read(texts, a.build, b.build, last(a.lua_build), last(b.lua_build));
    digest::lemma_readable_injective(last, a.lua_build, b.lua_build);
}

pub proof fn lemma_optional_text_code()
    ensures
        digest::readable(|s: Option<Seq<char>>| optional_text_code(s)),
{
    reveal(digest::readable);
    digest::lemma_text_code();
    let one = |s: Seq<char>| digest::text_code(s);
    digest::lemma_option_code(one);
    let all = |s: Option<Seq<char>>| digest::option_code(s, one);
    let wanted = |s: Option<Seq<char>>| optional_text_code(s);
    assert forall|a: Option<Seq<char>>, b: Option<Seq<char>>, r: Seq<u8>, s: Seq<u8>| #[trigger] (
    wanted(a) + r) == #[trigger] (wanted(b) + s) implies a == b && r == s by {
        assert(all(a) + r == all(b) + s);
    }
}

pub proof fn lemma_optional_wide_code()
    ensures
        digest::readable(|n: Option<u128>| optional_wide_code(n)),
{
    reveal(digest::readable);
    digest::lemma_wide_code();
    let one = |n: u128| digest::wide_code(n);
    digest::lemma_option_code(one);
    let all = |n: Option<u128>| digest::option_code(n, one);
    let wanted = |n: Option<u128>| optional_wide_code(n);
    assert forall|a: Option<u128>, b: Option<u128>, r: Seq<u8>, s: Seq<u8>| #[trigger] (wanted(a) + r)
        == #[trigger] (wanted(b) + s) implies a == b && r == s by {
        assert(all(a) + r == all(b) + s);
    }
}

pub(crate) fn push_optional_text(out: &mut Vec<u8>, s: &Option<String>)
    ensures
        final(out)@ == old(out)@ + optional_text_code(text::optional_string(*s)),
{
    let ghost before = out@;
    match s {
        None => {
            out.push(0);
        },
        Some(s) => {
            out.push(1);
            digest::push_text(out, s.as_str());
        },
    }
    assert(out@ =~= before + optional_text_code(text::optional_string(*s)));
}

/// The code of a path component.
pub open spec fn part_bytes(p: Part) -> Seq<u8> {
    match p {
        Part::Root => seq![0u8],
        Part::Cur => seq![1u8],
        Part::Parent => seq![2u8],
        Part::Normal(name) => seq![3u8] + digest::text_code(name),
    }
}

/// The code of a path.
pub open spec fn path_bytes(p: Seq<Part>) -> Seq<u8> {
    digest::list_code(p, |c: Part| part_bytes(c))
}

pub proof fn lemma_path_bytes()
    ensures
        digest::readable(|p: Seq<Part>| path_bytes(p)),
{
    reveal(digest::readable);
    digest::lemma_text_code();
    let texts = |s: Seq<char>| digest::text_code(s);
    let one = |c: Part| part_bytes(c);
    assert forall|a: Part, b: Part, r: Seq<u8>, s: Seq<u8>| #[trigger] (one(a) + r) == #[trigger] (one(b)
        + s) implies a == b && r == s by {
        let x = one(a) + r;
        let y = one(b) + s;
        assert(x[0] == y[0]);
        assert(one(a)[0] == x[0] && one(b)[0] == y[0]);
        if let (Part::Normal(m), Part::Normal(n)) = (a, b) {
            assert(x.skip(1) =~= texts(m) + r);
            assert(y.skip(1) =~= texts(n) + s);
            assert(texts(m) + r == texts(n) + s);
        } else {
            assert(one(a).len() == 1 && one(b).len() == 1);
            assert(x.skip(1) =~= r);
            assert(y.skip(1) =~= s);
        }
    }
    digest::lemma_list_code(one);
    let all = |p: Seq<Part>| digest::list_code(p, one);
    let wanted = |p: Seq<Part>| path_bytes(p);
    assert forall|a: Seq<Part>, b: Seq<Part>, r: Seq<u8>, s: Seq<u8>| #[trigger] (wanted(a) + r)
        == #[trigger] (wanted(b) + s) implies a == b && r == s by {
        assert(all(a) + r == all(b) + s);
    }
}

pub(crate) fn push_path(out: &mut Vec<u8>, p: &Path)
    ensures
        final(out)@ == old(out)@ + path_bytes(p@),
{
    let mut i: usize = 0;
    let ghost before = out@;
    let ghost one = |c: Part| part_bytes(c);
    let ghost all = p@;
    assert(all.skip(0) =~= all);
    while i < p.parts.len()
        invariant
            i <= p.parts@.len(),
            one == |c: Part| part_bytes(c),
            all == p@,
            before + path_bytes(all) == out@ + digest::list_code(all.skip(i as int), one),
        decreases p.parts@.len() - i,
    {
        let ghost rest = all.skip(i as int);
        let ghost step = out@;
        out.push(1);
        match &p.parts[i] {
            Component::Root => out.push(0),
            Component::Cur => out.push(1),
            Component::Parent => out.push(2),
            Component::Normal(name) => {
                out.push(3);
                digest::push_text(out, name.as_str());
            },
        }
        proof {
            assert(rest[0] == p.parts@[i as int]@);
            assert(out@ =~= step + (seq![1u8] + one(rest[0])));
            assert(rest.drop_first() =~= all.skip(i as int + 1));
            assert(digest::list_code(rest, one) == seq![1u8] + one(rest[0]) + digest::list_code(
                rest.drop_first(),
                one,
            ));
            assert(out@ + digest::list_code(all.skip(i as int + 1), one) =~= step
                + digest::list_code(rest, one));
        }
        i = i + 1;
    }
    out.push(0);
    assert(all.skip(i as int).len() == 0);
    assert(out@ =~= before + path_bytes(all));
}

/// The code of a snapshot identity.
pub open spec fn snapshot_code(s: Snapshot) -> Seq<u8> {
    path_bytes(s.repo_cache_dir) + digest::bytes_code(s.head_rev) + optional_wide_code(s.dirty_diff)
        + digest::texts_code(s.build) + optional_text_code(s.lua_build)
}

proof fn lemma_regroup(
    x0: Seq<u8>,
    x1: Seq<u8>,
    x2: Seq<u8>,
    x3: Seq<u8>,
    x4: Seq<u8>,
    r: Seq<u8>,
)
    ensures
        x0 + x1 + x2 + x3 + x4 + r == x0 + (x1 + (x2 + (x3 + (x4 + r)))),
{
    assert(x0 + x1 + x2 + x3 + x4 + r =~= x0 + (x1 + (x2 + (x3 + (x4 + r)))));
}

pub proof fn lemma_snapshot_code()
    ensures
        digest::readable(|s: Snapshot| snapshot_code(s)),
{
    lemma_path_bytes();
    digest::lemma_bytes_code();
    lemma_optional_wide_code();
    digest::lemma_texts_code();
    lemma_optional_text_code();
    let c0 = |p: Seq<Part>| path_bytes(p);
    let c1 = |s: Seq<u8>| digest::bytes_code(s);
    let c2 = |n: Option<u128>| optional_wide_code(n);
    let c3 = |s: Seq<Seq<char>>| digest::texts_code(s);
    let c4 = |s: Option<Seq<char>>| optional_text_code(s);
    let code = |s: Snapshot| snapshot_code(s);
    assert forall|a: Snapshot, b: Snapshot, r: Seq<u8>, s: Seq<u8>| #[trigger] (code(a) + r)
        == #[trigger] (code(b) + s) implies a == b && r == s by {
        let a4 = c4(a.lua_build) + r;
        let b4 = c4(b.lua_build) + s;
        let a3 = c3(a.build) + a4;
        let b3 = c3(b.build) + b4;
        let a2 = c2(a.dirty_diff) + a3;
        let b2 = c2(b.dirty_diff) + b3;
        let a1 = c1(a.head_rev) + a2;
        let b1 = c1(b.head_rev) + b2;
        lemma_regroup(
            c0(a.repo_cache_dir),
            c1(a.head_rev),
            c2(a.dirty_diff),
            c3(a.build),
            c4(a.lua_build),
            r,
        );
        lemma_regroup(
            c0(b.repo_cache_dir),
            c1(b.head_rev),
            c2(b.dirty_diff),
            c3(b.build),
            c4(b.lua_build),
            s,
        );
        digest::lemma_read(c0, a.repo_cache_dir, b.repo_cache_dir, a1, b1);
        digest::lemma_read(c1, a.head_rev, b.head_rev, a2, b2);
        digest::lemma_read(c2, a.dirty_diff, b.dirty_diff, a3, b3);
        digest::lemma_read(c3, a.build, b.build, a4, b4);
        digest::lemma_read(c4, a.lua_build, b.lua_build, r, s);
    }
    reveal(digest::readable);
}

impl RepoSnapshotIdentity {
    /// A snapshot identity.
    pub fn new(
        repo_cache_dir: Path,
        head_rev: Vec<u8>,
        dirty_diff: Option<u128>,
        build: Vec<String>,
        lua_build: Option<String>,
    ) -> (identity: RepoSnapshotIdentity)
        ensures
            identity@ == (Snapshot {
                repo_cache_dir: repo_cache_dir@,
                head_rev: head_rev@,
                dirty_diff,
                build: text::strings(build@),
                lua_build: text::optional_string(lua_build),
            }),
    {
        RepoSnapshotIdentity { repo_cache_dir, head_rev, dirty_diff, build, lua_build }
    }

    /// The directory name of the snapshot.
    pub fn snapshot_key(&self) -> (key: String)
        ensures
            key@ == snapshot_key_text(self@),
    {
        let mut key = lossy_string(&self.head_rev);
        if self.build.len() == 0 && self.lua_build.is_none() {
            return key;
        }
        let mut code: Vec<u8> = Vec::new();
        digest::push_byte(&mut code, SNAPSHOT_KEY_SCHEMA);
        digest::push_bytes(&mut code, self.head_rev.as_slice());
        digest::push_texts(&mut code, &self.build);
        push_optional_text(&mut code, &self.lua_build);
        assert(code@ =~= snapshot_key_code(self@));
        let hex = digest::digest_string(digest::xxh3_128(&code));
        key.append("__v1_");
        key.append(hex.as_str());
        key
    }

    /// The same identity again.
    pub fn duplicate(&self) -> (copy: RepoSnapshotIdentity)
        ensures
            copy@ == self@,
    {
        RepoSnapshotIdentity {
            repo_cache_dir: self.repo_cache_dir.duplicated(),
            head_rev: duplicate_bytes(&self.head_rev),
            dirty_diff: self.dirty_diff,
            build: lazy_type::duplicate_strings(&self.build),
            lua_build: match &self.lua_build {
                Some(s) => Some(s.clone()),
                None => None,
            },
        }
    }

    pub(crate) fn push_code(&self, out: &mut Vec<u8>)
        ensures
            final(out)@ == old(out)@ + snapshot_code(self@),
    {
        let ghost before = out@;
        push_path(out, &self.repo_cache_dir);
        digest::push_bytes(out, self.head_rev.as_slice());
        let ghost between = out@;
        match self.dirty_diff {
            None => {
                out.push(0);
            },
            Some(n) => {
                out.push(1);
                digest::push_wide(out, n);
            },
        }
        assert(out@ =~= between + optional_wide_code(self.dirty_diff));
        digest::push_texts(out, &self.build);
        push_optional_text(out, &self.lua_build);
        assert(out@ =~= before + snapshot_code(self@));
    }
}

/// A second list of the same bytes.
pub(crate) fn duplicate_bytes(bytes: &Vec<u8>) -> (copy: Vec<u8>)
    ensures
        copy@ == bytes@,
{
    let mut copy: Vec<u8> = Vec::new();
    digest::push_raw(&mut copy, bytes.as_slice());
    assert(copy@ =~= bytes@);
    copy
}

/// The identity of a file of a snapshot.
#[derive(Debug)]
pub struct RepoFileIdentity {
    pub snapshot: RepoSnapshotIdentity,
    pub relative_path: Path,
}

impl RepoFileIdentity {
    /// The identity of the file at `relative_path` of the snapshot.
    pub fn new(snapshot: RepoSnapshotIdentity, relative_path: Path) -> (identity: RepoFileIdentity)
        ensures
            identity.snapshot == snapshot,
            identity.relative_path == relative_path,
    {
        RepoFileIdentity { snapshot, relative_path }
    }
}

/// The identity of a file: of a snapshot, or generated.
#[derive(Debug)]
pub enum FileIdentity {
    RepoFile(RepoFileIdentity),
    GeneratedFile { path: Path, data_hash: u128 },
}

/// What a file identity is, mathematically.
pub enum FileId {
    RepoFile { snapshot: Snapshot, relative_path: Seq<Part> },
    GeneratedFile { path: Seq<Part>, data_hash: u128 },
}

impl View for FileIdentity {
    type V = FileId;

    open spec fn view(&self) -> FileId {
        match self {
            FileIdentity::RepoFile(r) => FileId::RepoFile {
                snapshot: r.snapshot@,
                relative_path: r.relative_path@,
            },
            FileIdentity::GeneratedFile { path, data_hash } => FileId::GeneratedFile {
                path: path@,
                data_hash: *data_hash,
            },
        }
    }
}

/// The path of a file below its root.
pub open spec fn file_path(id: FileId) -> Seq<Part> {
    match id {
        FileId::RepoFile { relative_path, .. } => relative_path,
        FileId::GeneratedFile { path, .. } => path,
    }
}

/// The code of a file identity.
pub open spec fn file_id_code(id: FileId) -> Seq<u8> {
    match id {
        FileId::RepoFile { snapshot, relative_path } => seq![0u8] + snapshot_code(snapshot)
            + path_bytes(relative_path),
        FileId::GeneratedFile { path, data_hash } => seq![1u8] + path_bytes(path)
            + digest::wide_code(data_hash),
    }
}

pub proof fn lemma_file_id_code()
    ensures
        digest::readable(|id: FileId| file_id_code(id)),
{
    reveal(digest::readable);
    lemma_snapshot_code();
    lemma_path_bytes();
    digest::lemma_wide_code();
    let c0 = |s: Snapshot| snapshot_code(s);
    let c1 = |p: Seq<Part>| path_bytes(p);
    let c2 = |n: u128| digest::wide_code(n);
    let code = |id: FileId| file_id_code(id);
    assert forall|a: FileId, b: FileId, r: Seq<u8>, s: Seq<u8>| #[trigger] (code(a) + r)
        == #[trigger] (code(b) + s) implies a == b && r == s by {
        let x = code(a) + r;
        let y = code(b) + s;
        assert(x[0] == y[0]);
        assert(code(a)[0] == x[0] && code(b)[0] == y[0]);
        match (a, b) {
            (
                FileId::RepoFile { snapshot: sa, relative_path: pa },
                FileId::RepoFile { snapshot: sb, relative_path: pb },
            ) => {
                assert(x.skip(1) =~= c0(sa) + (c1(pa) + r));
                assert(y.skip(1) =~= c0(sb) + (c1(pb) + s));
                assert(c0(sa) + (c1(pa) + r) == c0(sb) + (c1(pb) + s));
                assert(c1(pa) + r == c1(pb) + s);
            },
            (
                FileId::GeneratedFile { path: pa, data_hash: ha },
                FileId::GeneratedFile { path: pb, data_hash: hb },
            ) => {
                assert(x.skip(1) =~= c1(pa) + (c2(ha) + r));
                assert(y.skip(1) =~= c1(pb) + (c2(hb) + s));
                assert(c1(pa) + (c2(ha) + r) == c1(pb) + (c2(hb) + s));
                assert(c2(ha) + r == c2(hb) + s);
            },
            _ => {},
        }
    }
}

impl FileIdentity {
    /// The path below the root of the snapshot or package.
    pub fn relative_path(&self) -> (p: &Path)
        ensures
            p@ == file_path(self@),
    {
        match self {
            FileIdentity::RepoFile(r) => &r.relative_path,
            FileIdentity::GeneratedFile { path, .. } => path,
        }
    }

    /// The same identity again.
    pub fn duplicate(&self) -> (copy: FileIdentity)
        ensures
            copy@ == self@,
    {
        match self {
            FileIdentity::RepoFile(r) => FileIdentity::RepoFile(
                RepoFileIdentity {
                    snapshot: r.snapshot.duplicate(),
                    relative_path: r.relative_path.duplicated(),
                },
            ),
            FileIdentity::GeneratedFile { path, data_hash } => FileIdentity::GeneratedFile {
                path: path.duplicated(),
                data_hash: *data_hash,
            },
        }
    }

    pub(crate) fn push_code(&self, out: &mut Vec<u8>)
        ensures
            final(out)@ == old(out)@ + file_id_code(self@),
    {
        let ghost before = out@;
        match self {
            FileIdentity::RepoFile(r) => {
                out.push(0);
                r.snapshot.push_code(out);
                push_path(out, &r.relative_path);
            },
            FileIdentity::GeneratedFile { path, data_hash } => {
                out.push(1);
                push_path(out, path);
                digest::push_wide(out, *data_hash);
            },
        }
        assert(out@ =~= before + file_id_code(self@));
    }
}

} // verus!
