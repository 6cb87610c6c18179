//! The snapshot manifest: which files a snapshot holds, with their sizes, digests and
//! modification times, and the checks a snapshot must pass before anything is restored.
use vstd::prelude::*;
use crate::digest::Fingerprint;
use crate::order::NameSet;
use crate::paths::{allowed, spec_allowed};
use crate::text::chars_of;

verus! {

/// A modification time: seconds and nanoseconds since the Unix epoch.
#[derive(Debug, Clone, Copy, PartialEq, Eq, Structural)]
pub struct Timestamp {
    pub secs: u64,
    pub nanos: u32,
}

/// One file of a snapshot, by its path relative to the Codex home (databases under
/// `sqlite/`).
#[derive(Debug)]
pub struct Entry {
    pub path: String,
    pub size: u64,
    pub sha256: String,
    pub modified: Option<Timestamp>,
}

/// The manifest of a snapshot.
#[derive(Debug)]
pub struct Manifest {
    pub format_version: u32,
    pub source_home: Option<String>,
    pub files: Vec<Entry>,
}

/// Why a snapshot was refused.
#[derive(Debug)]
pub enum ManifestError {
    /// The manifest's format version is neither 1 nor 2.
    UnsupportedVersion,
    /// A path that a snapshot may not hold.
    UnsupportedPath(String),
    /// A path listed twice.
    DuplicatePath(String),
    /// A file whose size or digest differs from its manifest entry.
    ChecksumMismatch(String),
}

/// The format version this library writes.
pub const FORMAT_VERSION: u32 = 2;

/// The format versions this library reads.
pub open spec fn supported_version(v: u32) -> bool {
    v == 1 || v == 2
}

/// The paths of a manifest's entries, in order.
pub open spec fn entry_paths(m: Manifest) -> Seq<Seq<char>> {
    m.files@.map_values(|e: Entry| e.path@)
}

/// The `i`-th entry names an allowed path not listed before it.
pub open spec fn entry_ok(paths: Seq<Seq<char>>, i: int) -> bool {
    &&& spec_allowed(paths[i])
    &&& forall|j: int| 0 <= j < i ==> paths[j] != paths[i]
}

/// Every entry is acceptable.
pub open spec fn manifest_ok(m: Manifest) -> bool {
    &&& supported_version(m.format_version)
    &&& forall|i: int| 0 <= i < m.files@.len() ==> #[trigger] entry_ok(entry_paths(m), i)
}

/// Checks the version and the paths of a manifest: a supported version, and entries that
/// name allowed paths, each once. The error names the first entry that fails.
pub fn validate_manifest(m: &Manifest) -> (r: Result<(), ManifestError>)
    ensures
        r is Ok <==> manifest_ok(*m),
        r matches Err(ManifestError::UnsupportedVersion) <==> !supported_version(m.format_version),
        r matches Err(ManifestError::UnsupportedPath(p)) ==> exists|i: int|
            0 <= i < m.files@.len() && !spec_allowed(entry_paths(*m)[i]) && p@ == entry_paths(
                *m,
            )[i] && forall|j: int| 0 <= j < i ==> #[trigger] entry_ok(entry_paths(*m), j),
        r matches Err(ManifestError::DuplicatePath(p)) ==> exists|i: int|
            0 <= i < m.files@.len() && spec_allowed(entry_paths(*m)[i]) && !entry_ok(
                entry_paths(*m),
                i,
            ) && p@ == entry_paths(*m)[i] && forall|j: int|
                0 <= j < i ==> #[trigger] entry_ok(entry_paths(*m), j),
        !(r matches Err(ManifestError::ChecksumMismatch(_))),
{
    if m.format_version != 1 && m.format_version != 2 {
        return Err(ManifestError::UnsupportedVersion);
    }
    let ghost paths = entry_paths(*m);
    let mut seen = NameSet::new();
    let n = m.files.len();
    let mut i: usize = 0;
    while i < n
        invariant
            n == m.files@.len(),
            paths == entry_paths(*m),
            supported_version(m.format_version),
            i <= n,
            forall|j: int| 0 <= j < i ==> #[trigger] entry_ok(paths, j),
            forall|x: Seq<char>| seen.contains(x) <==> paths.take(i as int).contains(x),
        decreases n - i,
    {
        let path = &m.files[i].path;
        proof {
            assert(paths[i as int] == path@);
        }
        if !allowed(path.as_str()) {
            proof {
                assert(!entry_ok(entry_paths(*m), i as int));
            }
            return Err(ManifestError::UnsupportedPath(path.clone()));
        }
        let p = chars_of(path.as_str());
        let added = seen.insert(p);
        if !added {
            proof {
                let k = choose|k: int| 0 <= k < i && paths.take(i as int)[k] == path@;
                assert(paths[k] == paths[i as int]);
                assert(!entry_ok(entry_paths(*m), i as int));
            }
            return Err(ManifestError::DuplicatePath(path.clone()));
        }
        proof {
            assert forall|j: int| 0 <= j < i implies paths[j] != paths[i as int] by {
                assert(paths.take(i as int)[j] == paths[j]);
            }
            assert(paths.take(i + 1) =~= paths.take(i as int).push(path@));
            crate::text::lemma_push_contains(paths.take(i as int), path@);
            assert(entry_ok(paths, i as int));
        }
        i += 1;
    }
    Ok(())
}

/// Checks a file against its manifest entry: the same size and digest.
pub fn verify(found: &Fingerprint, entry: &Entry) -> (r: Result<(), ManifestError>)
    ensures
        r is Ok <==> (found.size == entry.size && found.sha256@ == entry.sha256@),
        r matches Err(e) ==> e matches ManifestError::ChecksumMismatch(p) && p@ == entry.path@,
{
    if found.size == entry.size && found.sha256 == entry.sha256 {
        Ok(())
    } else {
        Err(ManifestError::ChecksumMismatch(entry.path.clone()))
    }
}

/// The entry that records a copied file with its fingerprint and modification time.
pub open spec fn recorded(path: String, found: Fingerprint, modified: Option<Timestamp>) -> Entry {
    Entry { path: path, size: found.size, sha256: found.sha256, modified: modified }
}

impl Manifest {
    /// An empty manifest of the current format for a snapshot of `source_home`.
    pub fn for_home(source_home: String) -> (m: Manifest)
        ensures
            m.format_version == FORMAT_VERSION,
            m.source_home == Some(source_home),
            m.files@.len() == 0,
    {
        Manifest { format_version: FORMAT_VERSION, source_home: Some(source_home), files: Vec::new() }
    }

    /// Records a copied file with its fingerprint and modification time.
    pub fn record(&mut self, path: String, found: Fingerprint, modified: Option<Timestamp>)
        ensures
            final(self).format_version == old(self).format_version,
            final(self).source_home == old(self).source_home,
            final(self).files@ == old(self).files@.push(recorded(path, found, modified)),
    {
        self.files.push(Entry { path, size: found.size, sha256: found.sha256, modified });
    }

    /// The manifest of a snapshot of `source_home` that holds the copied files `paths`, in
    /// order, each with its fingerprint and modification time.
    pub fn assemble(
        source_home: String,
        paths: &Vec<String>,
        found: &Vec<Fingerprint>,
        times: &Vec<Option<Timestamp>>,
    ) -> (m: Manifest)
        requires
            found@.len() == paths@.len(),
            times@.len() == paths@.len(),
        ensures
            m.format_version == FORMAT_VERSION,
            m.source_home == Some(source_home),
            m.files@.len() == paths@.len(),
            forall|i: int|
                0 <= i < paths@.len() ==> #[trigger] m.files@[i] == recorded(
                    paths@[i],
                    found@[i],
                    times@[i],
                ),
    {
        let mut m = Manifest::for_home(source_home);
        let n = paths.len();
        let mut i: usize = 0;
        while i < n
            invariant
                n == paths@.len(),
                found@.len() == n,
                times@.len() == n,
                i <= n,
                m.format_version == FORMAT_VERSION,
                m.source_home == Some(source_home),
                m.files@.len() == i,
                forall|k: int|
                    0 <= k < i ==> #[trigger] m.files@[k] == recorded(paths@[k], found@[k], times@[k]),
            decreases n - i,
        {
            let f = Fingerprint { size: found[i].size, sha256: found[i].sha256.clone() };
            m.record(paths[i].clone(), f, times[i]);
            i += 1;
        }
        m
    }
}

} // verus!

verus! {

/// A snapshot manifest as a dump writes it loads again: the current format version with
/// allowed paths, each listed once, passes every check on the paths.
pub proof fn law_written_manifest_loads(m: Manifest)
    requires
        m.format_version == FORMAT_VERSION,
        forall|i: int| 0 <= i < m.files@.len() ==> spec_allowed(#[trigger] entry_paths(m)[i]),
        entry_paths(m).no_duplicates(),
    ensures
        manifest_ok(m),
{
    assert forall|i: int| 0 <= i < m.files@.len() implies #[trigger] entry_ok(entry_paths(m), i) by {
        assert(spec_allowed(entry_paths(m)[i]));
    }
}

} // verus!
