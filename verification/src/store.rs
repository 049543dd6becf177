//! Store identities (`<hash>-<name>` directory names) and store metadata.

use vstd::prelude::*;
use vstd::string::*;
use vstd::utf8::*;
use crate::error::Error;
use crate::text::{chars_of, first_index_of, last_index_of};
use crate::paths::{RuntimePaths, path_join, join_path};

verus! {

/// A valid store directory name: no `/`, a `-`, and exactly 32 bytes before
/// the first `-`.
pub open spec fn valid_identity(s: Seq<char>) -> bool {
    &&& !s.contains('/')
    &&& s.contains('-')
    &&& encode_utf8(hash_part(s)).len() == 32
}

/// The part of a directory name before its first `-`.
pub open spec fn hash_part(s: Seq<char>) -> Seq<char> {
    s.take(s.index_of_first('-').unwrap())
}

/// The part of a directory name after its first `-`.
pub open spec fn name_part(s: Seq<char>) -> Seq<char> {
    s.skip(s.index_of_first('-').unwrap() + 1)
}

/// The last `/`-separated component of a path.
pub open spec fn last_component(p: Seq<char>) -> Seq<char> {
    match p.index_of_last('/') {
        Some(i) => p.skip(i + 1),
        None => p,
    }
}

/// The directory name within the store, holding both the hash and the name.
#[derive(Clone, Debug)]
pub struct StoreIdentity {
    directory: String,
}

impl View for StoreIdentity {
    type V = Seq<char>;

    closed spec fn view(&self) -> Seq<char> {
        self.directory@
    }
}

impl StoreIdentity {
    /// Whether the directory name has a `-`, so that its hash and name can be told apart.
    pub open spec fn has_pair(&self) -> bool {
        self@.contains('-')
    }

    /// Validates `s` as a store directory name.
    pub fn new(s: String) -> (r: Result<Self, Error>)
        ensures
            r is Ok <==> valid_identity(s@),
            r matches Ok(id) ==> id@ == s@,
            r matches Err(e) ==> e matches Error::InvalidStoreIdentity(m) && m@ == s@,
    {
        let chars = chars_of(s.as_str());
        if first_index_of(&chars, '/').is_none() {
            match first_index_of(&chars, '-') {
                Some(k) => {
                    let hash = s.as_str().substring_char(0, k);
                    assert(hash@ == hash_part(s@));
                    if hash.as_bytes().len() == 32 {
                        return Ok(StoreIdentity { directory: s });
                    }
                },
                None => {},
            }
        }
        Err(Error::InvalidStoreIdentity(s))
    }

    /// The store identity named by the last component of the path `p`.
    pub fn from_path(p: &str) -> (r: Result<Self, Error>)
        ensures
            r is Ok <==> valid_identity(last_component(p@)),
            r matches Ok(id) ==> id@ == last_component(p@),
            r matches Err(e) ==> e matches Error::InvalidStoreIdentity(m) && m@ == last_component(p@),
    {
        let chars = chars_of(p);
        let n = chars.len();
        let last = match last_index_of(&chars, '/') {
            Some(i) => p.substring_char(i + 1, n),
            None => p,
        };
        assert(last@ =~= last_component(p@));
        Self::new(last.to_owned())
    }

    /// A store identity taken as given, without validation.
    pub fn unsafe_from(directory: &str) -> (r: Self)
        ensures
            r@ == directory@,
    {
        StoreIdentity { directory: directory.to_owned() }
    }

    /// A copy of this identity.
    pub fn copy_identity(&self) -> (r: Self)
        ensures
            r@ == self@,
    {
        StoreIdentity { directory: self.directory.clone() }
    }

    /// The hash, the part of the directory name before its first `-`.
    pub fn hash(&self) -> (r: &str)
        requires
            self.has_pair(),
        ensures
            r@ == hash_part(self@),
    {
        self.pair().0
    }

    /// Whether both name the same store directory.
    pub fn same_as(&self, other: &StoreIdentity) -> (r: bool)
        ensures
            r == (self@ == other@),
    {
        self.directory == other.directory
    }

    /// The whole directory name.
    pub fn directory(&self) -> (r: &str)
        ensures
            r@ == self@,
    {
        self.directory.as_str()
    }

    fn pair(&self) -> (r: (&str, &str))
        requires
            self.has_pair(),
        ensures
            r.0@ == hash_part(self@),
            r.1@ == name_part(self@),
    {
        let s = self.directory.as_str();
        let chars = chars_of(s);
        let n = chars.len();
        let k = first_index_of(&chars, '-').unwrap();
        (s.substring_char(0, k), s.substring_char(k + 1, n))
    }

    /// The name, shown without the hash.
    pub fn display_name(&self) -> (r: StoreIdentityNameDisplay<'_>)
        ensures
            r.0 == self,
    {
        StoreIdentityNameDisplay(self)
    }

    /// The directory name as a `String`.
    pub fn to_string(&self) -> (r: String)
        ensures
            r@ == self@,
    {
        self.directory.clone()
    }
}

/// Shows a store identity by its name, the part after the hash.
pub struct StoreIdentityNameDisplay<'a>(pub &'a StoreIdentity);

impl<'a> StoreIdentityNameDisplay<'a> {
    /// The name part of the identity.
    pub fn to_string(&self) -> (r: String)
        requires
            self.0.has_pair(),
        ensures
            r@ == name_part(self.0@),
    {
        self.0.pair().1.to_owned()
    }
}

/// The version of store metadata that this runix writes and accepts.
pub const LATEST_VERSION: i32 = 1;

/// The version of a store entry's metadata: the latest, or an older one.
#[derive(Clone, Copy, Debug, PartialEq, Eq, Structural)]
pub enum StoreEntryVersion {
    Latest,
    Historical(i32),
}

/// The version that a number denotes.
pub open spec fn version_of(value: i32) -> StoreEntryVersion {
    if value == LATEST_VERSION {
        StoreEntryVersion::Latest
    } else {
        StoreEntryVersion::Historical(value)
    }
}

/// The number of a version.
pub open spec fn version_number(v: StoreEntryVersion) -> i32 {
    match v {
        StoreEntryVersion::Latest => LATEST_VERSION,
        StoreEntryVersion::Historical(i) => i,
    }
}

impl StoreEntryVersion {
    /// The version of entries written by the first release.
    pub fn v0() -> (r: Self)
        ensures
            r == StoreEntryVersion::Historical(0),
    {
        StoreEntryVersion::Historical(0)
    }
}

impl From<i32> for StoreEntryVersion {
    fn from(value: i32) -> (r: Self) {
        if value == LATEST_VERSION {
            StoreEntryVersion::Latest
        } else {
            StoreEntryVersion::Historical(value)
        }
    }
}

impl vstd::std_specs::convert::FromSpecImpl<i32> for StoreEntryVersion {
    open spec fn obeys_from_spec() -> bool {
        true
    }

    open spec fn from_spec(value: i32) -> Self {
        version_of(value)
    }
}

impl From<StoreEntryVersion> for i32 {
    fn from(v: StoreEntryVersion) -> (r: i32) {
        match v {
            StoreEntryVersion::Latest => LATEST_VERSION,
            StoreEntryVersion::Historical(i) => i,
        }
    }
}

impl vstd::std_specs::convert::FromSpecImpl<StoreEntryVersion> for i32 {
    open spec fn obeys_from_spec() -> bool {
        true
    }

    open spec fn from_spec(v: StoreEntryVersion) -> Self {
        version_number(v)
    }
}

/// The metadata of a store entry: its references and the version of runix
/// that wrote it.
#[derive(Debug)]
pub struct StoreMeta {
    pub references: Vec<StoreIdentity>,
    pub version: StoreEntryVersion,
}

/// Why stored metadata could not be used.
#[derive(Debug)]
pub enum MetaError {
    /// It was written by a version of runix whose entries are not accepted.
    UnsupportedVersion,
    /// It could not be read.
    LoadError(String),
}

/// Store metadata and when the entry was last used.
#[derive(Debug)]
pub struct StoreMetaFull {
    meta: StoreMeta,
    used_seconds: i64,
    used_nanos: u32,
}

impl StoreMeta {
    /// Where the metadata of `identity` is kept.
    pub fn path(paths: &RuntimePaths, identity: &StoreIdentity) -> (r: String)
        ensures
            r@ == path_join(paths.meta_path@, identity@),
    {
        join_path(paths.meta_path.as_str(), identity.directory())
    }

    /// Where the metadata of `identity` is written before it is moved into
    /// place: next to it, with `.tmp` after the directory name.
    pub fn tmp_path(paths: &RuntimePaths, identity: &StoreIdentity) -> (r: String)
        ensures
            r@ == path_join(paths.meta_path@, identity@ + ".tmp"@),
    {
        let mut name = identity.to_string();
        name.append(".tmp");
        join_path(paths.meta_path.as_str(), name.as_str())
    }

    /// Metadata as loaded from disk, with the time the entry was last used;
    /// only metadata of the latest version is accepted.
    pub fn loaded(meta: StoreMeta, used_seconds: i64, used_nanos: u32) -> (r: Result<StoreMetaFull, MetaError>)
        ensures
            r is Ok <==> meta.version == StoreEntryVersion::Latest,
            r matches Ok(full) ==> full.meta() == meta && full.used_time() == (used_seconds, used_nanos),
            r is Err ==> r == Err::<StoreMetaFull, MetaError>(MetaError::UnsupportedVersion),
    {
        let full = StoreMetaFull { meta, used_seconds, used_nanos };
        if full.is_supported() {
            Ok(full)
        } else {
            Err(MetaError::UnsupportedVersion)
        }
    }
}

impl StoreMetaFull {
    /// The metadata.
    pub closed spec fn meta(&self) -> StoreMeta {
        self.meta
    }

    /// When the entry was last used, in seconds and nanoseconds since the epoch.
    pub closed spec fn used_time(&self) -> (i64, u32) {
        (self.used_seconds, self.used_nanos)
    }

    /// The entries that this entry references.
    pub fn references(&self) -> (r: &Vec<StoreIdentity>)
        ensures
            *r == self.meta().references,
    {
        &self.meta.references
    }

    /// Whether the metadata has the latest version.
    pub fn is_supported(&self) -> (r: bool)
        ensures
            r == (self.meta().version == StoreEntryVersion::Latest),
    {
        match self.meta.version {
            StoreEntryVersion::Latest => true,
            StoreEntryVersion::Historical(_) => false,
        }
    }
}

/// Reading a version number and writing it back gives the same number.
pub proof fn lemma_version_number_roundtrip(value: i32)
    ensures
        version_number(version_of(value)) == value,
{
}

/// Writing a version and reading it back gives the same version, except for
/// an older version numbered like the latest, which reads back as the latest.
pub proof fn lemma_version_roundtrip(v: StoreEntryVersion)
    requires
        v != StoreEntryVersion::Historical(LATEST_VERSION),
    ensures
        version_of(version_number(v)) == v,
{
}

/// The last component of a path that ends in `/` followed by `name`, where
/// `name` has no `/`, is `name`.
proof fn lemma_last_component_after_slash(prefix: Seq<char>, name: Seq<char>)
    requires
        prefix.len() > 0,
        prefix.last() == '/',
        !name.contains('/'),
    ensures
        last_component(prefix + name) == name,
{
    let p = prefix + name;
    let k = prefix.len() - 1;
    assert(p[k] == '/');
    p.index_of_last_ensures('/');
    let idx = p.index_of_last('/').unwrap();
    assert(idx == k) by {
        if idx > k {
            assert(name[idx - prefix.len()] == p[idx]);
        }
        if idx < k {
            assert(p[k] != '/');
        }
    }
    assert(p.skip(k + 1) =~= name);
}

/// The identity read from the store path of an entry is that entry: for
/// every store directory `store` and valid identity `id`, the last component
/// of `store` joined with `id` is `id`.
pub proof fn lemma_identity_of_store_path(store: Seq<char>, id: Seq<char>)
    requires
        valid_identity(id),
    ensures
        last_component(path_join(store, id)) == id,
{
    assert(id.len() > 0);
    assert(id[0] != '/') by {
        if id[0] == '/' {
            assert(id.contains('/'));
        }
    }
    if store.len() == 0 {
        assert(path_join(store, id) =~= id);
        id.index_of_last_ensures('/');
    } else if store.last() == '/' {
        lemma_last_component_after_slash(store, id);
    } else {
        assert(path_join(store, id) =~= (store + seq!['/']) + id);
        lemma_last_component_after_slash(store + seq!['/'], id);
    }
}

/// The hash and the name of a directory name, joined again by `-`, give
/// back the directory name.
pub proof fn lemma_pair_rejoins(s: Seq<char>)
    requires
        s.contains('-'),
    ensures
        hash_part(s) + seq!['-'] + name_part(s) == s,
{
    s.index_of_first_ensures('-');
    let i = s.index_of_first('-').unwrap();
    assert(hash_part(s) + seq!['-'] + name_part(s) =~= s);
}

/// Metadata written with version `v` is accepted when it is read back
/// (`StoreMeta::loaded` accepts only the latest version) exactly when `v` is
/// the latest version or the older version numbered like it; metadata
/// without a version, read as version 0, is refused.
pub proof fn lemma_written_version_accepted(v: StoreEntryVersion)
    ensures
        (version_of(version_number(v)) == StoreEntryVersion::Latest)
            <==> (v == StoreEntryVersion::Latest || v == StoreEntryVersion::Historical(LATEST_VERSION)),
        version_of(0) != StoreEntryVersion::Latest,
{
}

} // verus!
