use cargo_disk::json;
use cargo_disk::metadata::{from_json, Metadata};
use cargo_disk::path::{Component, FilePath};
use cargo_disk::report::{largest_profile, project_name, report, report_titled, Subject};
use cargo_disk::time::Timestamp;
use cargo_disk::usage::Entry;

const NOW: Timestamp = Timestamp { secs: 100 * 24 * 3600, nanos: 0 };

fn path(text: &str) -> FilePath {
    let mut parts = Vec::new();
    for part in std::path::Path::new(text).components() {
        let name = part.as_os_str().to_string_lossy().into_owned();
        parts.push(match part {
            std::path::Component::RootDir => Component::RootDir,
            _ => Component::Normal(name),
        });
    }
    FilePath { parts }
}

fn entry(text: &str, bytes: u64, secs: i64) -> Entry {
    Entry {
        path: path(text),
        bytes,
        modified: Timestamp { secs, nanos: 0 },
    }
}

fn meta() -> Metadata {
    let doc = r#"{"target_directory":"/p/target","packages":[{"id":"m","name":"app",
        "manifest_path":"/p/Cargo.toml","dependencies":[],"targets":[]}]}"#;
    from_json(&json::parse(doc).unwrap()).unwrap()
}

fn files() -> Vec<Entry> {
    let fresh = 100 * 24 * 3600;
    vec![
        entry("/p/target/debug/incremental/app-1/x.bin", 2048, fresh),
        entry("/p/target/debug/deps/libgone-1.rlib", 1024, 0),
        entry("/p/target/debug/deps/libserde-1.rlib", 512, fresh),
        entry("/p/target/release/deps/libapp-2.rlib", 512, fresh),
        entry("/p/target/CACHEDIR.TAG", 177, fresh),
    ]
}

#[test]
fn reports_on_a_project() {
    let files = files();
    let dirs = [path("/p/target")];
    let meta = meta();
    let subject = Subject {
        name: "app",
        files: &files,
        dirs: &dirs,
        lock_size: Some(154),
        lock: Some("[[package]]\nname = \"serde\"\n"),
        meta: Some(&meta),
        now: NOW,
    };
    let rule = "─".repeat(36);
    let row = |label: &str, size: &str| format!("{label:<22} {size:>9}\n");
    let wide = |label: &str, size: &str| format!("{label:<30} {size:>9}\n");
    let mut want = format!("Cargo Disk\n{rule}\n\nProject: app\n\nTotal disk usage\n");
    want += &row("  target/", "4.17 KB");
    want += &row("  Cargo.lock", "154 B");
    want += &format!("\nTARGET/\n{rule}\n\n");
    want += &row("debug/", "3.50 KB");
    want += &row("release/", "512 B");
    want += &row("CACHEDIR.TAG", "177 B");
    want += &format!("\nDEBUG/\n{rule}\n\n");
    want += &row("incremental/", "2.00 KB");
    want += &row("deps/", "1.50 KB");
    want += &format!("\nLargest crates\n{rule}\n\n");
    want += &wide("app", "2.50 KB");
    want += &wide("gone", "1.00 KB");
    want += &wide("serde", "512 B");
    want += &wide("(other)", "177 B");
    want += &format!("\nPotential orphaned crates\n{rule}\n\n");
    want += &row("gone", "1.00 KB");
    want += "\n";
    want += &row("1 crate", "1.00 KB");
    want += &format!("\nPotential cleanup\n{rule}\n\n");
    want += &row("Incremental cache", "2.00 KB");
    want += &row("Artifacts >30 days", "1.00 KB");
    want += "\nPotentially reclaimable:\n";
    want += &row("", "3.00 KB");
    assert_eq!(report(&subject), want);
    assert_eq!(report_titled(&subject, "DEBUG"), want);
}

#[test]
fn reports_on_an_empty_project() {
    let dirs = [path("/p/target"), path("/b")];
    let subject = Subject {
        name: "app",
        files: &[],
        dirs: &dirs,
        lock_size: None,
        lock: None,
        meta: None,
        now: NOW,
    };
    let rule = "─".repeat(36);
    let want = format!(
        "Cargo Disk\n{rule}\n\nProject: app\n\nTotal disk usage\n\
         {:<22} {:>9}\n{:<22} {:>9}\n\nPotential cleanup\n{rule}\n\nNothing to clean up.\n",
        "  target/", "0 B", "  b/ (build-dir)", "0 B"
    );
    assert_eq!(report(&subject), want);
}

#[test]
fn without_metadata_no_crate_is_called_an_orphan() {
    let files = files();
    let dirs = [path("/p/target")];
    let text = report(&Subject {
        name: "app",
        files: &files,
        dirs: &dirs,
        lock_size: None,
        lock: None,
        meta: None,
        now: NOW,
    });
    assert!(!text.contains("orphaned"));
    assert!(!text.contains("Cargo.lock"));
}

#[test]
fn a_build_directory_has_its_own_section() {
    let files = [entry("/t/debug/app", 10, 0), entry("/b/débug/deps/libx-1.rlib", 20, 0)];
    let dirs = [path("/t"), path("/b")];
    assert_eq!(largest_profile(&files, &dirs), Some((1, "débug".to_string())));
    let text = report(&Subject {
        name: "app",
        files: &files,
        dirs: &dirs,
        lock_size: None,
        lock: None,
        meta: None,
        now: NOW,
    });
    assert!(text.contains("\nTARGET/\n"));
    assert!(text.contains("\nBUILD-DIR/\n"));
    assert!(text.contains("\nDÉBUG/\n"), "{text}");
    let equal = [entry("/t/debug/app", 10, 0), entry("/b/release/app", 10, 0)];
    assert_eq!(largest_profile(&equal, &dirs), Some((0, "debug".to_string())));
    assert_eq!(largest_profile(&[entry("/t/file", 9, 0)], &dirs), None);
}

#[test]
fn counts_builds_above_three() {
    let mut files = Vec::new();
    for hash in ["a", "b", "c", "d"] {
        files.push(entry(&format!("/t/debug/.fingerprint/app-{hash}/x"), 0, 0));
    }
    let dirs = [path("/t")];
    let text = report(&Subject {
        name: "app",
        files: &files,
        dirs: &dirs,
        lock_size: None,
        lock: None,
        meta: None,
        now: NOW,
    });
    assert!(text.contains(&format!("\n{:<30} {:>4} builds\n", "app", 4)));
}

#[test]
fn only_the_largest_crates_are_listed() {
    let mut files = Vec::new();
    for n in 0..12 {
        files.push(entry(&format!("/t/debug/deps/libc{n:02}-1.rlib"), 100 - n, 0));
    }
    let dirs = [path("/t")];
    let text = report(&Subject {
        name: "app",
        files: &files,
        dirs: &dirs,
        lock_size: None,
        lock: None,
        meta: None,
        now: NOW,
    });
    assert!(text.contains("\nc00 "));
    assert!(text.contains("\nc09 "));
    assert!(!text.contains("\nc10 "));
}

#[test]
fn the_manifest_names_the_project() {
    let root = path("/p/dir-name");
    let manifest = "[package]\nname = \"cargo-disk\"\nname = \"other\"\n";
    assert_eq!(project_name(Some(manifest), &root), "cargo-disk");
    assert_eq!(project_name(Some("[workspace]\n  name = \"x\"\n"), &root), "dir-name");
    assert_eq!(project_name(None, &root), "dir-name");
    assert_eq!(project_name(None, &path("/")), "");
}
