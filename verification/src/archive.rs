//! The archive extractor: reads a gzip-compressed tar attachment into an
//! in-memory entry list, validates every entry path against directory
//! escapes, and decides whether the archive is already rooted in the
//! challenge's directory name — in which case it unpacks into the target's
//! parent so no redundant nesting is created.

use vstd::prelude::*;
use crate::text::{spec_ends_with, spec_join, spec_starts_with};

verus! {

/// One entry of a tar archive, read into memory.
#[derive(Debug)]
pub struct TarEntry {
    pub path: String,
    pub is_dir: bool,
    pub data: Vec<u8>,
}

/// Why an attachment could not be extracted. All of these are per-attachment
/// failures: the caller logs them and continues with the next attachment.
#[derive(Clone, Copy, Debug, PartialEq, Eq, Structural)]
pub enum ArchiveError {
    /// The gzip stream does not decompress.
    BadGzip,
    /// The decompressed bytes are not a readable tar archive.
    BadTar,
    /// An entry path is absolute or climbs out of the target directory.
    UnsafePath,
}

/// What gzip decompression yields on the given bytes, and `None` where they
/// are not a valid gzip stream. A function of the bytes alone.
pub uninterp spec fn gunzip_of(b: Seq<u8>) -> Option<Seq<u8>>;

/// The entries (path, is-directory, contents) a tar stream holds, and `None`
/// where the bytes are not readable as a tar archive. A function of the bytes
/// alone.
pub uninterp spec fn tar_entries_of(b: Seq<u8>) -> Option<Seq<(Seq<char>, bool, Seq<u8>)>>;

/// The entries of a gzip-compressed tar archive.
pub open spec fn archive_entries(b: Seq<u8>) -> Option<Seq<(Seq<char>, bool, Seq<u8>)>> {
    match gunzip_of(b) {
        None => None,
        Some(t) => tar_entries_of(t),
    }
}

/// The view of one in-memory entry.
pub open spec fn entry_rep(e: TarEntry) -> (Seq<char>, bool, Seq<u8>) {
    (e.path@, e.is_dir, e.data@)
}

/// Relies on flate2's bufread::GzDecoder driven by std's Read::read_to_end:
/// decompresses a gzip stream held in memory; the result is a function of the
/// input bytes alone.
#[verifier::external_body]
fn gunzip(bytes: &[u8]) -> (r: Result<Vec<u8>, ArchiveError>)
    ensures
        r matches Ok(v) ==> gunzip_of(bytes@) == Some(v@),
        r matches Err(e) ==> gunzip_of(bytes@) is None && e == ArchiveError::BadGzip,
{
    let mut dec = flate2::bufread::GzDecoder::new(bytes);
    let mut out: Vec<u8> = Vec::new();
    match std::io::Read::read_to_end(&mut dec, &mut out) {
        Ok(_) => Ok(out),
        Err(_) => Err(ArchiveError::BadGzip),
    }
}

/// Relies on tar's Archive: walks the entries of an uncompressed tar stream
/// held in memory, taking each entry's path, kind and contents; an entry
/// whose path cannot be read is skipped, as the double-pass inspection of the
/// original stream would skip it. The result is a function of the bytes
/// alone.
#[verifier::external_body]
fn tar_entries(bytes: &[u8]) -> (r: Result<Vec<TarEntry>, ArchiveError>)
    ensures
        r matches Ok(v) ==> tar_entries_of(bytes@) == Some(v@.map_values(|e: TarEntry| entry_rep(e))),
        r matches Err(e) ==> tar_entries_of(bytes@) is None && e == ArchiveError::BadTar,
{
    let mut archive = tar::Archive::new(bytes);
    let mut out: Vec<TarEntry> = Vec::new();
    for entry in archive.entries().map_err(|_| ArchiveError::BadTar)? {
        let mut entry = entry.map_err(|_| ArchiveError::BadTar)?;
        let path = match entry.path().ok().and_then(|p| p.to_str().map(|t| t.to_owned())) {
            Some(p) => p,
            None => continue,
        };
        let is_dir = entry.header().entry_type().is_dir();
        let mut data: Vec<u8> = Vec::new();
        std::io::Read::read_to_end(&mut entry, &mut data).map_err(|_| ArchiveError::BadTar)?;
        out.push(TarEntry { path, is_dir, data });
    }
    Ok(out)
}

/// Reads a gzip-compressed tar attachment into its in-memory entry list.
pub fn read_archive(bytes: &[u8]) -> (r: Result<Vec<TarEntry>, ArchiveError>)
    ensures
        (r is Ok) == (archive_entries(bytes@) is Some),
        r matches Ok(v) ==> archive_entries(bytes@) == Some(v@.map_values(|e: TarEntry| entry_rep(e))),
        r is Err ==> (r == Err::<Vec<TarEntry>, ArchiveError>(ArchiveError::BadGzip)
            || r == Err::<Vec<TarEntry>, ArchiveError>(ArchiveError::BadTar)),
{
    let tar_bytes = match gunzip(bytes) {
        Ok(t) => t,
        Err(e) => {
            return Err(e);
        }
    };
    tar_entries(tar_bytes.as_slice())
}

/// The path `..`, the one component that climbs out of a directory.
pub open spec fn dotdot() -> Seq<char> {
    seq!['.', '.']
}

/// The path has a `..` component: it is `..` itself, starts with `../`, ends
/// with `/..`, or has `/../` somewhere inside.
pub open spec fn has_dotdot_component(p: Seq<char>) -> bool {
    ||| p == dotdot()
    ||| spec_starts_with(p, dotdot() + seq!['/'])
    ||| spec_ends_with(p, seq!['/'] + dotdot())
    ||| exists|i: int|
        0 <= i && i + 4 <= p.len() && #[trigger] p.subrange(i, i + 4) == seq!['/', '.', '.', '/']
}

/// The path is absolute.
pub open spec fn is_absolute(p: Seq<char>) -> bool {
    p.len() > 0 && p[0] == '/'
}

/// An entry path that stays within the directory it is unpacked into: not
/// empty, not absolute, and without a `..` component.
pub open spec fn entry_path_safe(p: Seq<char>) -> bool {
    p.len() > 0 && !is_absolute(p) && !has_dotdot_component(p)
}

/// Whether one entry path is safe to unpack.
pub fn check_entry_path(p: &str) -> (r: bool)
    ensures
        r == entry_path_safe(p@),
{
    let n = p.unicode_len();
    if n == 0 {
        return false;
    }
    if p.get_char(0) == '/' {
        return false;
    }
    proof {
        reveal_strlit("..");
        reveal_strlit("../");
        reveal_strlit("/..");
        assert(("..")@ =~= dotdot());
        assert(("../")@ =~= dotdot() + seq!['/']);
        assert(("/..")@ =~= seq!['/'] + dotdot());
    }
    if crate::text::str_eq(p, "..") {
        return false;
    }
    if crate::text::str_starts_with(p, "../") {
        return false;
    }
    if crate::text::str_ends_with(p, "/..") {
        return false;
    }
    if n < 4 {
        proof {
            assert(!has_dotdot_component(p@));
        }
        return true;
    }
    let mut i: usize = 0;
    while i <= n - 4
        invariant
            0 <= i,
            i <= n,
            n == p@.len(),
            n >= 4,
            forall|k: int| 0 <= k < i ==> #[trigger] p@.subrange(k, k + 4) != seq!['/', '.', '.', '/'],
        decreases n - i,
    {
        if p.get_char(i) == '/' && p.get_char(i + 1) == '.' && p.get_char(i + 2) == '.'
            && p.get_char(i + 3) == '/' {
            proof {
                assert(p@.subrange(i as int, i + 4) =~= seq!['/', '.', '.', '/']);
            }
            return false;
        }
        proof {
            let ii: int = i as int;
            assert(p@.subrange(ii, ii + 4)[0] == p@[ii]);
            assert(p@.subrange(ii, ii + 4)[1] == p@[ii + 1]);
            assert(p@.subrange(ii, ii + 4)[2] == p@[ii + 2]);
            assert(p@.subrange(ii, ii + 4)[3] == p@[ii + 3]);
            assert(p@.subrange(ii, ii + 4) != seq!['/', '.', '.', '/']);
        }
        i += 1;
    }
    proof {
        assert forall|k: int| 0 <= k && k + 4 <= p@.len() implies
            #[trigger] p@.subrange(k, k + 4) != seq!['/', '.', '.', '/'] by {
            assert(k < i);
        }
    }
    true
}

/// The path `p` lies under the directory name `name`: it is `name` itself or
/// `name/` followed by more.
pub open spec fn is_under(name: Seq<char>, p: Seq<char>) -> bool {
    p == name
    || (p.len() > name.len() && p.subrange(0, name.len() as int) == name
        && p[name.len() as int] == '/')
}

/// Whether one entry path lies under `name`.
pub fn check_is_under(name: &str, p: &str) -> (r: bool)
    ensures
        r == is_under(name@, p@),
{
    let m = name.unicode_len();
    let n = p.unicode_len();
    if crate::text::str_eq(p, name) {
        return true;
    }
    if n <= m {
        return false;
    }
    if !crate::text::str_starts_with(p, name) {
        return false;
    }
    let r = p.get_char(m) == '/';
    proof {
        assert(p@.subrange(0, m as int) == name@);
    }
    r
}

/// Every entry of the archive lies under `name`: the archive is already
/// rooted in a directory named after the challenge.
pub open spec fn all_rooted(entries: Seq<TarEntry>, name: Seq<char>) -> bool {
    forall|i: int| 0 <= i < entries.len() ==> is_under(name, (#[trigger] entries[i]).path@)
}

/// Every entry path of the archive is safe to unpack.
pub open spec fn all_safe(entries: Seq<TarEntry>) -> bool {
    forall|i: int| 0 <= i < entries.len() ==> entry_path_safe((#[trigger] entries[i]).path@)
}

/// Where an archive is unpacked.
#[derive(Clone, Copy, Debug, PartialEq, Eq, Structural)]
pub enum UnpackDest {
    /// Into the parent of the challenge directory: the archive's own top
    /// level directory becomes the challenge directory.
    Parent,
    /// Directly into the challenge directory.
    Target,
}

/// A validated extraction: where to unpack, and the entries to write.
#[derive(Debug)]
pub struct ExtractionPlan {
    pub dest: UnpackDest,
    pub entries: Vec<TarEntry>,
}

/// Validates the entries of an archive and decides the unpack root: into the
/// target's parent exactly when every entry is already rooted in the
/// challenge's name, directly into the target otherwise. Any entry path that
/// could escape the unpack root rejects the whole archive.
pub fn plan_extraction(entries: Vec<TarEntry>, challenge_name: &str) -> (r: Result<
    ExtractionPlan,
    ArchiveError,
>)
    ensures
        (r is Ok) == all_safe(entries@),
        r is Err ==> r == Err::<ExtractionPlan, ArchiveError>(ArchiveError::UnsafePath),
        r matches Ok(plan) ==> plan.entries@ == entries@
            && ((plan.dest == UnpackDest::Parent) == all_rooted(entries@, challenge_name@)),
{
    let mut i: usize = 0;
    let mut rooted = true;
    while i < entries.len()
        invariant
            i <= entries@.len(),
            forall|j: int| 0 <= j < i ==> entry_path_safe((#[trigger] entries@[j]).path@),
            rooted == (forall|j: int| 0 <= j < i
                ==> is_under(challenge_name@, (#[trigger] entries@[j]).path@)),
        decreases entries@.len() - i,
    {
        if !check_entry_path(entries[i].path.as_str()) {
            return Err(ArchiveError::UnsafePath);
        }
        let under = check_is_under(challenge_name, entries[i].path.as_str());
        rooted = rooted && under;
        i += 1;
    }
    let dest = if rooted {
        UnpackDest::Parent
    } else {
        UnpackDest::Target
    };
    Ok(ExtractionPlan { dest, entries })
}

/// Law: archive rooting. For an archive whose every entry lies under the
/// challenge name, unpacking into the target's parent puts each entry at the
/// target directory itself (for the root entry) or at the target directory
/// plus the entry's path with the leading name stripped — `target/<contents>`
/// directly, never `target/<name>/<contents>`.
pub proof fn lemma_archive_rooting(parent: Seq<char>, name: Seq<char>, p: Seq<char>)
    requires
        is_under(name, p),
    ensures
        p == name ==> spec_join(parent, p) == spec_join(parent, name),
        p != name ==> spec_join(parent, p)
            == spec_join(parent, name) + p.skip(name.len() as int),
{
    if p != name {
        assert(p =~= p.subrange(0, name.len() as int) + p.skip(name.len() as int));
        assert(spec_join(parent, p)
            =~= spec_join(parent, name) + p.skip(name.len() as int));
    }
}

} // verus!
