use cargo_disk::path::{Component, FilePath};
use cargo_disk::scan::{
    cargo_home, find_projects, measure, scan_all, scans, Folder, Home, Project,
};
use cargo_disk::time::Timestamp;
use cargo_disk::usage::Entry;

fn folder(id: usize, name: &str, manifest: bool, target: bool, folders: Vec<Folder>) -> Folder {
    Folder {
        id,
        name: name.to_string(),
        has_manifest: manifest,
        has_target: target,
        folders,
    }
}

fn at(secs: i64) -> Timestamp {
    Timestamp { secs, nanos: 0 }
}

fn entry(name: &str, bytes: u64, secs: i64) -> Entry {
    Entry {
        path: FilePath { parts: vec![Component::Normal(name.to_string())] },
        bytes,
        modified: at(secs),
    }
}

fn project(name: &str, bytes: u64, secs: i64) -> Project {
    Project { name: name.to_string(), bytes, newest: at(secs) }
}

#[test]
fn finds_projects_without_descending_into_target() {
    let root = folder(
        0,
        "cargo-disk-scan-test",
        false,
        false,
        vec![
            folder(
                1,
                "a",
                true,
                true,
                // A vendored manifest inside a build tree is not a project.
                vec![folder(
                    2,
                    "target",
                    false,
                    false,
                    vec![folder(3, "debug", true, true, vec![])],
                )],
            ),
            folder(4, "nested", false, false, vec![folder(5, "b", true, true, vec![])]),
            folder(6, ".hidden", false, false, vec![folder(7, "c", true, true, vec![])]),
            // Built nothing: no target/, so not listed.
            folder(8, "unbuilt", true, false, vec![]),
            folder(9, "node_modules", true, true, vec![]),
        ],
    );
    let mut found = Vec::new();
    find_projects(&root, &mut found);
    assert_eq!(found, vec![1, 5]);
    for skipped in [".git", "node_modules", "target"] {
        assert!(!scans(skipped));
    }
    assert!(scans("src"));
    assert!(scans("targets"));
}

#[test]
fn finds_projects_however_deep_they_lie() {
    let mut tree = folder(99, "deep", true, true, vec![]);
    for id in 0..30 {
        tree = folder(id, "dir", false, false, vec![tree]);
    }
    let tree = folder(50, "dir", true, true, vec![tree]);
    let mut found = vec![7];
    find_projects(&tree, &mut found);
    assert_eq!(found, vec![7, 50, 99]);
}

#[test]
fn a_project_was_last_used_when_anything_in_it_was() {
    let measured = measure("p".to_string(), &[entry("a", 3, 5), entry("b", 4, 9), entry("c", 0, 7)]);
    assert_eq!(measured.bytes, 7);
    assert_eq!(measured.newest, at(9));
    let before_1970 = measure("p".to_string(), &[entry("a", 3, -5)]);
    assert_eq!(before_1970.newest, at(-5));
    let empty = measure("p".to_string(), &[]);
    assert_eq!((empty.bytes, empty.newest), (0, at(0)));
}

#[test]
fn lists_projects_by_size() {
    let text = scan_all(
        vec![project("zeta", 1024, 0), project("alpha", 1024, 600), project("big", 2048, 1200)],
        "/code",
        at(1200),
        Some((703, 0)),
    );
    let rule = "─".repeat(40);
    let want = format!(
        "Cargo Disk — Projects\n{rule}\n\n\
         {:<22} {:>9}  Last used\n\
         {:<22} {:>9}  just now\n\
         {:<22} {:>9}  10 minutes ago\n\
         {:<22} {:>9}  20 minutes ago\n\n\
         Projects: 3\nCombined target usage: 4.00 KB\n\n\
         Cargo home\n{rule}\n\n{:<22} {:>9}\n{:<22} {:>9}\n",
        "Project",
        "Target",
        "big",
        "2.00 KB",
        "alpha",
        "1.00 KB",
        "zeta",
        "1.00 KB",
        "registry/",
        "703 B",
        "Total shared cache:",
        "703 B",
    );
    assert_eq!(text, want);
}

#[test]
fn says_where_it_looked_in_vain() {
    let rule = "─".repeat(40);
    let head = format!("Cargo Disk — Projects\n{rule}\n\n");
    let none = "No Cargo projects with a target/ under /code\n";
    assert_eq!(scan_all(vec![], "/code", at(0), None), format!("{head}{none}"));
    assert_eq!(scan_all(vec![], "/code", at(0), Some((0, 0))), format!("{head}{none}"));
    let text = scan_all(vec![], "/code", at(0), Some((1, 2)));
    assert!(text.ends_with(
        "registry/                    1 B\ngit/                         2 B\nTotal shared cache:          3 B\n"
    ));
}

#[test]
fn a_long_name_widens_the_column() {
    let name = "a-project-with-a-very-long-name";
    let text = scan_all(vec![project(name, 1, 0)], "/code", at(0), None);
    assert!(text.contains(&format!("\n{:<31} {:>9}  Last used\n", "Project", "Target")));
    assert!(text.contains(&format!("\n{name} {:>9}  just now\n", "1 B")));
}

#[test]
fn cargo_home_comes_from_the_environment() {
    assert_eq!(cargo_home(true, true, true), Home::Cargo);
    assert_eq!(cargo_home(false, true, true), Home::User);
    assert_eq!(cargo_home(false, false, true), Home::Profile);
    assert_eq!(cargo_home(false, false, false), Home::Unknown);
}
