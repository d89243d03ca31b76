//! The typed lockfile model: the data the graph builder consumes, the error
//! taxonomy, and the two pieces of string logic everything else rests on —
//! splitting a snapshot key into name and version, and joining workspace
//! paths.

use vstd::prelude::*;
use vstd::string::StrSliceExecFns;
use vstd::string::StringExecFns;

verus! {

/// The error type for lockfile reading, parsing and graph building.
///
/// Every variant is terminal for the invocation: the caller either renders
/// the complete tree or reports one of these.
#[derive(Debug)]
pub enum Error {
    /// The lockfile could not be opened or read.
    ReadLockfile { message: String },
    /// The lockfile bytes do not conform to the expected document shape.
    ParseLockfile { message: String },
    /// The schema-version tag is not the one supported version.
    UnsupportedVersion { version: String },
    /// A snapshot key lacks a locatable name/version delimiter.
    MalformedSnapshotKey { key: String },
}

/// The message text of an error, as a sequence of characters.
pub open spec fn message_of(e: Error) -> Seq<char> {
    match e {
        Error::ReadLockfile { message } => "could not read pnpm-lock.yaml: "@ + message@,
        Error::ParseLockfile { message } => "could not parse lockfile structure: "@ + message@,
        Error::UnsupportedVersion { version } => "unsupported lockfile version: "@ + version@,
        Error::MalformedSnapshotKey { key } => "no name/version delimiter in snapshot key: "@
            + key@,
    }
}

impl Error {
    /// A human-readable description of the error, naming what failed.
    pub fn message(&self) -> (r: String)
        ensures
            r@ == message_of(*self),
    {
        match self {
            Error::ReadLockfile { message } => String::from_str(
                "could not read pnpm-lock.yaml: ",
            ).concat(message.as_str()),
            Error::ParseLockfile { message } => String::from_str(
                "could not parse lockfile structure: ",
            ).concat(message.as_str()),
            Error::UnsupportedVersion { version } => String::from_str(
                "unsupported lockfile version: ",
            ).concat(version.as_str()),
            Error::MalformedSnapshotKey { key } => String::from_str(
                "no name/version delimiter in snapshot key: ",
            ).concat(key.as_str()),
        }
    }
}

/// Character-wise string equality: true exactly when the two views agree.
pub fn str_eq(a: &str, b: &str) -> (r: bool)
    ensures
        r == (a@ == b@),
{
    let alen = a.unicode_len();
    let blen = b.unicode_len();
    if alen != blen {
        return false;
    }
    let mut i: usize = 0;
    while i < alen
        invariant
            i <= alen,
            alen == a@.len(),
            alen == b@.len(),
            forall|j: int| 0 <= j < i ==> a@[j] == b@[j],
        decreases alen - i,
    {
        if a.get_char(i) != b.get_char(i) {
            return false;
        }
        i = i + 1;
    }
    proof {
        assert(a@ =~= b@);
    }
    true
}

/// A resolved dependency entry of an importer (a workspace package).
#[derive(Debug)]
pub struct Dependency {
    /// The requested specifier from the package manifest, e.g. `^1.2.3` or
    /// `workspace:^`.
    pub specifier: String,
    /// The resolved version: either a qualified version that together with
    /// the package name forms a snapshot key, or `link:` followed by a
    /// relative path to another importer.
    pub version: String,
}

/// A package in the workspace, with its resolved dependency entries.
///
/// Entries are association lists from package name to [`Dependency`]; both
/// lists default to empty when the lockfile omits them.
#[derive(Debug)]
pub struct Importer {
    /// Resolutions of the manifest's `dependencies` entries.
    pub dependencies: Vec<(String, Dependency)>,
    /// Resolutions of the manifest's `devDependencies` entries.
    pub dev_dependencies: Vec<(String, Dependency)>,
}

/// A registry-sourced package entry, keyed in the lockfile by
/// `<name>@<qualified version>`.
#[derive(Debug)]
pub struct Snapshot {
    /// Whether the package is only used in optional dependencies.
    pub optional: bool,
    /// Resolved dependencies: package name to qualified version.
    pub dependencies: Vec<(String, String)>,
    /// As `dependencies`, but for optional dependencies.
    pub optional_dependencies: Vec<(String, String)>,
    /// Package names of peer dependencies of the transitive package
    /// dependencies, excluding direct peer dependencies.
    pub transitive_peer_dependencies: Vec<String>,
}

/// The schema-version tag this model recognizes.
pub open spec fn supported_version() -> Seq<char> {
    "9.0"@
}

/// The typed lockfile, a tagged union keyed by schema version.
///
/// Exactly one variant is recognized; any other version tag is rejected by
/// [`Lockfile::from_parts`] with [`Error::UnsupportedVersion`] rather than
/// guessed at.
#[derive(Debug)]
pub enum Lockfile {
    /// Lockfile format version 9.0.
    V9 {
        /// Workspace packages by workspace-relative directory path; `"."`
        /// denotes the workspace root.
        importers: Vec<(String, Importer)>,
        /// Registry packages by `<name>@<qualified version>` key.
        snapshots: Vec<(String, Snapshot)>,
    },
}

impl Lockfile {
    /// Assembles the typed lockfile from an already-decoded document,
    /// enforcing the schema-version rule: any tag other than the supported
    /// one is an [`Error::UnsupportedVersion`].
    pub fn from_parts(
        version: &str,
        importers: Vec<(String, Importer)>,
        snapshots: Vec<(String, Snapshot)>,
    ) -> (r: Result<Lockfile, Error>)
        ensures
            match r {
                Ok(lf) => version@ == supported_version() && lf == (Lockfile::V9 {
                    importers,
                    snapshots,
                }),
                Err(e) => version@ != supported_version() && (e matches Error::UnsupportedVersion {
                    version: v,
                } && v@ == version@),
            },
    {
        if str_eq(version, "9.0") {
            Ok(Lockfile::V9 { importers, snapshots })
        } else {
            Err(Error::UnsupportedVersion { version: version.to_owned() })
        }
    }
}

/// The index of the first `'@'` in `s` at or after position `i`, or `-1`
/// when there is none.
pub open spec fn first_delim_from(s: Seq<char>, i: int) -> int
    decreases s.len() - i
        when 0 <= i
{
    if i >= s.len() {
        -1
    } else if s[i] == '@' {
        i
    } else {
        first_delim_from(s, i + 1)
    }
}

/// The index a snapshot key splits at: the first `'@'` at or after index 1.
///
/// Index 0 is skipped deliberately, because scoped package names themselves
/// begin with `'@'` (`@scope/pkg@1.2.3` must split after `@scope/pkg`).
pub open spec fn split_index(s: Seq<char>) -> int {
    first_delim_from(s, 1)
}

/// Whether a snapshot key has a name/version delimiter at all.
pub open spec fn key_has_delim(s: Seq<char>) -> bool {
    split_index(s) >= 0
}

/// The name part of a well-formed snapshot key.
pub open spec fn name_of_key(s: Seq<char>) -> Seq<char> {
    s.subrange(0, split_index(s))
}

/// The version part of a well-formed snapshot key.
pub open spec fn version_of_key(s: Seq<char>) -> Seq<char> {
    s.subrange(split_index(s) + 1, s.len() as int)
}

/// What `first_delim_from` finds: either there is no `'@'` from `i` on, or
/// the result is the position of the first one.
pub proof fn lemma_first_delim_from(s: Seq<char>, i: int)
    requires
        0 <= i,
    ensures
        first_delim_from(s, i) == -1 || i <= first_delim_from(s, i) < s.len(),
        first_delim_from(s, i) == -1 ==> (forall|j: int| i <= j < s.len() ==> s[j] != '@'),
        first_delim_from(s, i) >= 0 ==> s[first_delim_from(s, i)] == '@',
        first_delim_from(s, i) >= 0 ==> (forall|j: int|
            i <= j < first_delim_from(s, i) ==> s[j] != '@'),
    decreases s.len() - i,
{
    if i < s.len() && s[i] != '@' {
        lemma_first_delim_from(s, i + 1);
    }
}

/// Splits a snapshot key (`"<name>@<version>"`, where `<name>` may itself
/// begin with an `'@'`-prefixed scope) into its name and version parts.
///
/// Returns [`Error::MalformedSnapshotKey`] exactly when the key has no
/// `'@'` after its first character.
pub fn split_snapshot_key(key: &str) -> (r: Result<(String, String), Error>)
    ensures
        match r {
            Ok(parts) => {
                &&& key_has_delim(key@)
                &&& parts.0@ == name_of_key(key@)
                &&& parts.1@ == version_of_key(key@)
            },
            Err(e) => {
                &&& !key_has_delim(key@)
                &&& (e matches Error::MalformedSnapshotKey { key: k } && k@ == key@)
            },
        },
{
    let len = key.unicode_len();
    if len < 2 {
        proof {
            lemma_first_delim_from(key@, 1);
        }
        return Err(Error::MalformedSnapshotKey { key: key.to_owned() });
    }
    let mut i: usize = 1;
    while i < len
        invariant
            1 <= i <= len,
            len == key@.len(),
            forall|j: int| 1 <= j < i ==> key@[j] != '@',
        decreases len - i,
    {
        if key.get_char(i) == '@' {
            proof {
                lemma_first_delim_from(key@, 1);
                let fd = first_delim_from(key@, 1);
                if fd == -1 {
                    assert(key@[i as int] != '@');
                } else if fd < i {
                    assert(key@[fd] != '@');
                } else if fd > i {
                    assert(key@[i as int] != '@');
                }
                assert(fd == i);
            }
            let name = key.substring_char(0, i).to_owned();
            let version = key.substring_char(i + 1, len).to_owned();
            return Ok((name, version));
        }
        i = i + 1;
    }
    proof {
        lemma_first_delim_from(key@, 1);
        let fd = first_delim_from(key@, 1);
        if fd >= 0 {
            assert(key@[fd] != '@');
        }
    }
    Err(Error::MalformedSnapshotKey { key: key.to_owned() })
}

/// The path formed by resolving `rel` against `base`: an absolute `rel`
/// stands alone; otherwise the two are joined with a `'/'` separator
/// (without doubling one that `base` already ends in). No normalization of
/// `.` or `..` segments is performed.
pub open spec fn joined_path(base: Seq<char>, rel: Seq<char>) -> Seq<char> {
    if rel.len() > 0 && rel[0] == '/' {
        rel
    } else if base.len() == 0 {
        rel
    } else if base.last() == '/' {
        base + rel
    } else {
        base + seq!['/'] + rel
    }
}

/// Joins a relative path onto a base path, as [`joined_path`] describes.
pub fn join_path(base: &str, rel: &str) -> (r: String)
    ensures
        r@ == joined_path(base@, rel@),
{
    let blen = base.unicode_len();
    let rlen = rel.unicode_len();
    if rlen > 0 && rel.get_char(0) == '/' {
        rel.to_owned()
    } else if blen == 0 {
        rel.to_owned()
    } else if base.get_char(blen - 1) == '/' {
        let mut s = base.to_owned();
        s.append(rel);
        s
    } else {
        let mut s = base.to_owned();
        s.append("/");
        s.append(rel);
        proof {
            reveal_strlit("/");
            assert("/"@ =~= seq!['/']);
            assert(s@ =~= joined_path(base@, rel@));
        }
        s
    }
}

} // verus!
