use cargo_disk::layout::format_size;
use cargo_disk::path::{dir_label, join, path_precedes, relative, Component, FilePath};
use cargo_disk::time::{ago, Timestamp};
use cargo_disk::usage::{
    breakdown, build_counts, cleanup_buckets, crate_name, crate_sizes, is_orphan, largest_crates,
    output_dirs, sum_bytes, total_fits, walk, walk_outputs, Entry, FileFacts, Listing, Output,
};
use std::collections::HashSet;
use vstd::hash_set::StringHashSet;

fn path(text: &str) -> FilePath {
    let mut parts = Vec::new();
    for part in std::path::Path::new(text).components() {
        let name = part.as_os_str().to_string_lossy().into_owned();
        parts.push(match part {
            std::path::Component::Prefix(_) => Component::Prefix(name),
            std::path::Component::RootDir => Component::RootDir,
            std::path::Component::CurDir => Component::CurDir,
            std::path::Component::ParentDir => Component::ParentDir,
            std::path::Component::Normal(_) => Component::Normal(name),
        });
    }
    FilePath { parts }
}

fn at(secs: i64) -> Timestamp {
    Timestamp { secs, nanos: 0 }
}

fn entry(text: &str, bytes: u64, age: i64) -> Entry {
    Entry { path: path(text), bytes, modified: at(age) }
}

fn show(parts: &[Component]) -> Vec<String> {
    parts.iter().map(|part| part.text().to_string()).collect()
}

#[test]
fn formats_sizes() {
    assert_eq!(format_size(1024 * 1024 * 1024), "1.00 GB");
    assert_eq!(format_size(1536), "1.50 KB");
    assert_eq!(format_size(0), "0 B");
}

#[test]
fn counts_old_incremental_files_once() {
    let now = at(365 * 24 * 60 * 60);
    let files = vec![
        // 40 days old AND incremental: incremental only, never both.
        entry("/t/debug/incremental/foo/bar.bin", 100, 0),
        entry("/t/debug/deps/stale.rlib", 20, 0),
        entry("/t/debug/deps/fresh.rlib", 7, 365 * 24 * 60 * 60),
    ];
    let (incremental, old) = cleanup_buckets(&files, &[path("/t")], now);
    assert_eq!((incremental, old), (100, 20));
}

#[test]
fn groups_by_first_component() {
    let files = vec![
        entry("/t/debug/deps/a.rlib", 10, 0),
        entry("/t/debug/build/b.o", 5, 0),
        entry("/t/release/deps/c.rlib", 40, 0),
        entry("/t/CACHEDIR.TAG", 1, 0),
    ];
    let rows = breakdown(&files, &path("/t"));
    assert_eq!(
        rows,
        vec![
            ("release/".to_string(), 40),
            ("debug/".to_string(), 15),
            ("CACHEDIR.TAG".to_string(), 1),
        ]
    );
}

#[test]
fn maps_files_to_crates() {
    let cases = [
        ("debug/deps/libtokio-3f0ef8f6133b01c4.rlib", Some("tokio")),
        ("debug/deps/libtokio-3f0ef8f6133b01c4.rmeta", Some("tokio")),
        ("debug/deps/tokio-3f0ef8f6133b01c4.d", Some("tokio")),
        ("debug/deps/liblibc-aaaa.rlib", Some("libc")),
        ("debug/deps/cargo_disk-5acc4a81361ae9c9", Some("cargo_disk")),
        ("debug/cargo-disk", Some("cargo_disk")),
        ("debug/build/proc-macro2-abc/out/x.rs", Some("proc_macro2")),
        (
            "debug/incremental/cargo_disk-0cb12/s-x/dep-graph.bin",
            Some("cargo_disk"),
        ),
        ("debug/.fingerprint/serde-1234/lib-serde", Some("serde")),
        (
            "x86_64-unknown-linux-gnu/release/deps/libfoo-12.rlib",
            Some("foo"),
        ),
        ("debug/examples/demo-99", Some("demo")),
        ("debug/.cargo-lock", None),
        ("CACHEDIR.TAG", None),
        ("package/cargo-disk-0.1.0.crate", None),
    ];
    for (text, want) in cases {
        assert_eq!(crate_name(&path(text).parts).as_deref(), want, "{text}");
    }
}

#[test]
fn orphans_are_crates_absent_from_the_lockfile() {
    let mut locked = StringHashSet::new();
    for name in ["serde", "serde_core", "my_crate"] {
        locked.insert(name.to_string());
    }
    assert!(is_orphan("regex", &locked));
    assert!(!is_orphan("serde", &locked));
    assert!(!is_orphan("my_crate", &locked));
    for pseudo in ["(other)", "build_script_build", "build_script_main"] {
        assert!(!is_orphan(pseudo, &locked), "{pseudo}");
    }
}

#[test]
fn files_are_relative_to_the_closest_output_dir() {
    let dirs = [path("/p/out"), path("/p/out/bld")];
    assert_eq!(
        relative(&path("/p/out/bld/debug/deps/x"), &dirs).map(show),
        Some(show(&path("debug/deps/x").parts))
    );
    assert_eq!(
        relative(&path("/p/out/debug/app"), &dirs).map(show),
        Some(show(&path("debug/app").parts))
    );
    assert!(relative(&path("/elsewhere/x"), &dirs).is_none());
}

#[test]
fn counts_fingerprint_units_per_crate() {
    let unit = |hash: &str| {
        entry(
            &format!("/t/debug/.fingerprint/cargo-disk-{hash}/lib-cargo-disk"),
            1,
            0,
        )
    };
    let mut files = vec![unit("aaa"), unit("bbb"), unit("ccc")];
    assert!(
        build_counts(&files, &[path("/t")]).is_empty(),
        "three units is normal: lib, test, check"
    );
    files.push(unit("ddd"));
    files.push(entry("/t/debug/deps/libserde-1.rlib", 1, 0));
    assert_eq!(
        build_counts(&files, &[path("/t")]),
        vec![("cargo_disk".to_string(), 4)]
    );
}

#[test]
fn describes_age_in_the_largest_useful_unit() {
    let now = at(400 * 24 * 3600);
    let before = |secs: i64| at(400 * 24 * 3600 - secs);
    assert_eq!(ago(before(30), now), "just now");
    assert_eq!(ago(before(600), now), "10 minutes ago");
    assert_eq!(ago(before(3600), now), "1 hour ago");
    assert_eq!(ago(before(2 * 24 * 3600), now), "2 days ago");
    assert_eq!(ago(before(120 * 24 * 3600), now), "4 months ago");
    assert_eq!(ago(before(370 * 24 * 3600), now), "1 year ago");
}

#[test]
fn walk_sums_a_real_directory_counting_hardlinks_once() {
    let file = |text: &str, bytes: u64, links: u64, inode: u64| {
        Listing::File(FileFacts {
            path: path(text),
            bytes,
            modified: None,
            links,
            device: 1,
            inode,
        })
    };
    // What Cargo does to debug/<bin> and debug/deps/<bin>-<hash>.
    let items = vec![
        file("/w/a.bin", 10, 2, 7),
        Listing::Dir(vec![
            file("/w/nested/b.bin", 32, 1, 8),
            file("/w/nested/a-link.bin", 10, 2, 7),
        ]),
    ];
    let mut files = Vec::new();
    walk(&items, &mut files, &mut HashSet::new());
    assert_eq!(files.len(), 2, "the hardlinked twin must not be counted");
    assert!(
        files
            .iter()
            .any(|f| f.path.is(&path("/w/nested/a-link.bin"))),
        "the name inside the subdirectory keeps the bytes, like deps/<bin>-<hash>"
    );
    assert_eq!(sum_bytes(&files), 42);
    assert_eq!(files[0].modified, at(0));
}

#[test]
fn the_last_output_directory_keeps_the_bytes() {
    let file = |text: &str, inode: u64| {
        Listing::File(FileFacts {
            path: path(text),
            bytes: 5,
            modified: Some(at(3)),
            links: 2,
            device: 1,
            inode,
        })
    };
    let listings = vec![vec![file("/t/debug/app", 1)], vec![file("/b/debug/deps/app-1", 1)]];
    let files = walk_outputs(&listings);
    assert_eq!(files.len(), 1);
    assert!(files[0].path.is(&path("/b/debug/deps/app-1")));
    assert_eq!(files[0].modified, at(3));
}

#[test]
fn the_same_inode_on_another_device_is_another_file() {
    let file = |device: u64| {
        Listing::File(FileFacts {
            path: path("/x"),
            bytes: 1,
            modified: None,
            links: 2,
            device,
            inode: 1,
        })
    };
    let mut files = Vec::new();
    walk(&vec![file(1), file(2), file(1)], &mut files, &mut HashSet::new());
    assert_eq!(files.len(), 2);
}

#[test]
fn sizes_are_rounded_as_doubles_are() {
    assert_eq!(format_size(1023), "1023 B");
    assert_eq!(format_size(1024), "1.00 KB");
    assert_eq!(format_size(1029), "1.00 KB");
    assert_eq!(format_size(1030), "1.01 KB");
    assert_eq!(format_size(1024 * 1024 - 1), "1024.00 KB");
    assert_eq!(format_size(99_218_391), "94.62 MB");
    for bytes in [1u64, 1536, 1029, 10_000_019, 5_368_709_120, u64::MAX - 1, u64::MAX, 1 << 53] {
        let n = bytes as f64;
        let want = if n >= 1073741824.0 {
            format!("{:.2} GB", n / 1073741824.0)
        } else if n >= 1048576.0 {
            format!("{:.2} MB", n / 1048576.0)
        } else if n >= 1024.0 {
            format!("{:.2} KB", n / 1024.0)
        } else {
            format!("{bytes} B")
        };
        assert_eq!(format_size(bytes), want);
    }
}

#[test]
fn ages_round_down() {
    assert_eq!(ago(at(0), at(119)), "just now");
    assert_eq!(ago(at(0), at(120)), "2 minutes ago");
    assert_eq!(ago(at(0), at(3599)), "59 minutes ago");
    assert_eq!(ago(at(0), at(24 * 3600)), "1 day ago");
    assert_eq!(ago(at(0), at(60 * 24 * 3600)), "2 months ago");
    assert_eq!(ago(at(10), at(0)), "just now");
}

#[test]
fn what_is_exactly_thirty_days_old_is_not_old() {
    let month = 30 * 24 * 60 * 60;
    let files = [entry("/t/debug/a", 3, 0)];
    assert_eq!(cleanup_buckets(&files, &[path("/t")], at(month)), (0, 0));
    let later = Timestamp { secs: month, nanos: 1 };
    assert_eq!(cleanup_buckets(&files, &[path("/t")], later), (0, 3));
    assert_eq!(cleanup_buckets(&files, &[path("/u")], later), (0, 0));
}

#[test]
fn every_byte_is_in_one_crate_or_in_none() {
    let files = [
        entry("/t/debug/deps/liba-1.rlib", 10, 0),
        entry("/t/debug/deps/liba-2.rmeta", 5, 0),
        entry("/t/debug/.fingerprint/b-1/x", 15, 0),
        entry("/t/CACHEDIR.TAG", 1, 0),
        entry("/elsewhere/deps/libc-1.rlib", 100, 0),
    ];
    let dirs = [path("/t")];
    let rows = largest_crates(&files, &dirs);
    assert_eq!(
        rows,
        vec![
            ("a".to_string(), 15),
            ("b".to_string(), 15),
            ("(other)".to_string(), 1),
        ]
    );
    let sizes = crate_sizes(&files, &dirs);
    assert_eq!(sizes.get("a"), Some(&15));
    assert_eq!(sizes.get("(other)"), None);
    assert!(total_fits(&files));
    assert!(!total_fits(&[entry("/a", u64::MAX, 0), entry("/b", 1, 0)]));
}

#[test]
fn equal_units_count_once() {
    let unit = |name: &str, file: &str| entry(&format!("/t/debug/.fingerprint/{name}/{file}"), 1, 0);
    let mut files = Vec::new();
    for hash in ["1", "2", "3", "4", "5"] {
        files.push(unit(&format!("a-b-{hash}"), "x"));
        files.push(unit(&format!("a-b-{hash}"), "y"));
        files.push(unit(&format!("a_c-{hash}"), "x"));
    }
    files.push(unit("a_c-6", "x"));
    files.push(unit("nohash", "x"));
    assert_eq!(
        build_counts(&files, &[path("/t")]),
        vec![("a_c".to_string(), 6), ("a_b".to_string(), 5)]
    );
}

#[test]
fn nested_output_directories_count_once() {
    assert_eq!(output_dirs(&path("/p/t"), &path("/p/t")), vec![Output::Target]);
    assert_eq!(output_dirs(&path("/p/t"), &path("/p/t/b")), vec![Output::Target]);
    assert_eq!(output_dirs(&path("/p/b/t"), &path("/p/b")), vec![Output::Build]);
    assert_eq!(
        output_dirs(&path("/p/t"), &path("/p/tb")),
        vec![Output::Target, Output::Build]
    );
}

#[test]
fn paths_are_joined_by_component() {
    assert!(join(&path("/t"), "debug").is(&path("/t/debug")));
    assert!(join(&path("/t"), "").is(&path("/t")));
    assert!(join(&path("/t"), ".").is(&path("/t/.")));
    assert!(join(&path("/t"), "..").is(&path("/t/..")));
    assert!(join(&path(""), ".").is(&path(".")));
    assert!(path_precedes(&path("/a/b"), &path("/a/b/c")));
    assert!(path_precedes(&path("/a-b"), &path("/a/b")) == (std::path::Path::new("/a-b") < std::path::Path::new("/a/b")));
    assert!(!path_precedes(&path("/a"), &path("/a")));
    assert_eq!(dir_label(&path("/a/b")), "b");
    assert_eq!(dir_label(&path("/")), "");
}
