//! The archive extractor: reading a real gzip-compressed tar, the rooting
//! decision, and the rejection of escaping entry paths.

use berg_cli::archive::{
    check_entry_path, check_is_under, plan_extraction, read_archive, ArchiveError, TarEntry,
    UnpackDest,
};

fn make_targz(entries: &[(&str, &[u8])]) -> Vec<u8> {
    let mut builder = tar::Builder::new(Vec::new());
    for (path, data) in entries {
        let mut header = tar::Header::new_gnu();
        header.set_size(data.len() as u64);
        header.set_mode(0o644);
        header.set_cksum();
        builder.append_data(&mut header, path, *data).unwrap();
    }
    let tar_bytes = builder.into_inner().unwrap();
    let mut enc = flate2::write::GzEncoder::new(Vec::new(), flate2::Compression::default());
    std::io::Write::write_all(&mut enc, &tar_bytes).unwrap();
    enc.finish().unwrap()
}

fn entry(path: &str, data: &[u8]) -> TarEntry {
    TarEntry { path: path.to_string(), is_dir: false, data: data.to_vec() }
}

#[test]
fn reads_back_what_was_packed() {
    let bytes = make_targz(&[
        ("baby-rop/exploit.py", b"print('hi')"),
        ("baby-rop/binary", b"\x7fELF"),
    ]);
    let entries = read_archive(&bytes).expect("a real archive reads");
    assert_eq!(entries.len(), 2);
    assert_eq!(entries[0].path, "baby-rop/exploit.py");
    assert_eq!(entries[0].data, b"print('hi')");
    assert_eq!(entries[1].path, "baby-rop/binary");
    assert_eq!(entries[1].data, b"\x7fELF");
}

#[test]
fn garbage_is_not_an_archive() {
    assert_eq!(read_archive(b"not gzip at all").unwrap_err(), ArchiveError::BadGzip);
}

#[test]
fn rooted_archive_unpacks_into_the_parent() {
    // every entry is prefixed with the challenge's name: unpacking into the
    // parent makes the archive's own top level the challenge directory, so
    // target/chall-x holds the contents directly, not chall-x/chall-x
    let bytes = make_targz(&[
        ("chall-x/README", b"hello"),
        ("chall-x/src/main.c", b"int main(){}"),
    ]);
    let entries = read_archive(&bytes).unwrap();
    let plan = plan_extraction(entries, "chall-x").expect("safe paths");
    assert_eq!(plan.dest, UnpackDest::Parent);
    assert_eq!(plan.entries.len(), 2);
}

#[test]
fn unrooted_archive_unpacks_into_the_target() {
    let bytes = make_targz(&[("README", b"hello"), ("chall-x/file", b"x")]);
    let entries = read_archive(&bytes).unwrap();
    let plan = plan_extraction(entries, "chall-x").expect("safe paths");
    assert_eq!(plan.dest, UnpackDest::Target);
}

#[test]
fn similarly_named_prefix_is_not_rooted() {
    // "chall-xy/..." does not lie under "chall-x"
    let plan = plan_extraction(vec![entry("chall-xy/file", b"x")], "chall-x").unwrap();
    assert_eq!(plan.dest, UnpackDest::Target);
    // the bare directory entry name itself does
    let plan2 = plan_extraction(vec![entry("chall-x", b"")], "chall-x").unwrap();
    assert_eq!(plan2.dest, UnpackDest::Parent);
}

#[test]
fn escaping_paths_reject_the_archive() {
    for bad in ["../outside", "a/../../b", "/etc/passwd", "a/..", "..", ""] {
        let r = plan_extraction(vec![entry(bad, b"x")], "chall-x");
        assert_eq!(r.unwrap_err(), ArchiveError::UnsafePath, "path {bad:?} must be rejected");
    }
}

#[test]
fn inner_dots_are_not_escapes() {
    for good in ["a..b", "a/..b/c", "a/b../c", "..a", "a.."] {
        assert!(check_entry_path(good), "path {good:?} is safe");
    }
    assert!(!check_entry_path("a/../c"));
}

#[test]
fn is_under_checks_whole_components() {
    assert!(check_is_under("chall-x", "chall-x"));
    assert!(check_is_under("chall-x", "chall-x/file"));
    assert!(!check_is_under("chall-x", "chall-xy"));
    assert!(!check_is_under("chall-x", "chall"));
    assert!(!check_is_under("chall-x", "other/chall-x"));
}
