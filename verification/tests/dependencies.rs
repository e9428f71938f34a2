use cargo_disk::deps::{
    after_report, choose_removal, chosen_row, direct_only, has_deps, parse_selection, parse_update,
    removal_args, render, run, start, After, Choice, Removal, Start,
};
use cargo_disk::graph::{reach, Skip};
use cargo_disk::json;
use cargo_disk::metadata::{from_json, Kind, Metadata};
use cargo_disk::path::{Component, FilePath};
use cargo_disk::search::{reads, rust_sources, searches, uses, Source};
use cargo_disk::time::Timestamp;
use cargo_disk::unused::{entries_fit, find_unused, freed_if_removed, Unused};
use cargo_disk::usage::Entry;
use vstd::hash_map::StringHashMap;

// app → regex → memchr, app → serde (shared with lib), app → (dev) hashing = md-5.
const DOC: &str = r#"{
    "target_directory": "/t",
    "workspace_members": ["app", "lib"],
    "packages": [
      {"id": "app", "name": "app", "manifest_path": "/p/Cargo.toml", "targets": [],
       "dependencies": [
         {"name": "regex", "rename": null, "kind": null, "target": null},
         {"name": "serde", "rename": null, "kind": null, "target": null},
         {"name": "md-5", "rename": "hash-ing", "kind": "dev", "target": null},
         {"name": "winapi", "rename": null, "kind": null, "target": "cfg(windows)"},
         {"name": "linked-sys", "rename": null, "kind": null, "target": null},
         {"name": "regex", "rename": null, "kind": null, "target": null}],
       "metadata": {"cargo-disk": {"ignore": ["linked-sys"]}}},
      {"id": "lib", "name": "lib", "manifest_path": "/p/lib/Cargo.toml", "targets": [],
       "dependencies": [
         {"name": "serde", "rename": null, "kind": null, "target": null}]},
      {"id": "regex", "name": "regex", "manifest_path": "/r", "dependencies": [],
       "targets": [{"kind": ["lib"], "name": "regex"}]},
      {"id": "memchr", "name": "memchr", "manifest_path": "/m", "dependencies": [],
       "targets": [{"kind": ["lib"], "name": "memchr"}]},
      {"id": "serde", "name": "serde", "manifest_path": "/s", "dependencies": [],
       "targets": [{"kind": ["lib"], "name": "serde"}]},
      {"id": "md", "name": "md-5", "manifest_path": "/d", "dependencies": [],
       "targets": [{"kind": ["lib"], "name": "md5"}]}],
    "resolve": {"nodes": [
      {"id": "app", "deps": [
        {"name": "regex", "pkg": "regex", "dep_kinds": [{"kind": null}]},
        {"name": "serde", "pkg": "serde", "dep_kinds": [{"kind": null}]},
        {"name": "hash_ing", "pkg": "md", "dep_kinds": [{"kind": "dev"}]}]},
      {"id": "lib", "deps": [
        {"name": "serde", "pkg": "serde", "dep_kinds": [{"kind": null}]}]},
      {"id": "regex", "deps": [
        {"name": "memchr", "pkg": "memchr", "dep_kinds": [{"kind": null}]}]},
      {"id": "memchr", "deps": []}, {"id": "serde", "deps": []}, {"id": "md", "deps": []}]}
}"#;

fn read() -> Metadata {
    from_json(&json::parse(DOC).unwrap()).unwrap()
}

fn sizes(of: &[(&str, u64)]) -> StringHashMap<u64> {
    let mut sizes = StringHashMap::new();
    for (name, bytes) in of {
        sizes.insert(name.to_string(), *bytes);
    }
    sizes
}

fn texts(of: &[&str]) -> Vec<String> {
    of.iter().map(|text| text.to_string()).collect()
}

fn unused(key: &str, package: &str, kind: Kind, target: Option<&str>, freed: u64) -> Unused {
    Unused {
        member: "app".to_string(),
        manifest: "/p/Cargo.toml".to_string(),
        key: key.to_string(),
        package: package.to_string(),
        kind,
        target: target.map(String::from),
        freed,
    }
}

#[test]
fn detects_the_ways_code_names_a_crate() {
    let used = [
        "use regex::Regex;",
        "let r = regex::Regex::new(x);",
        "pub use regex;",
        "use regex as re;",
        "extern crate regex;",
        "#[macro_use]\nextern crate regex;",
        "#[derive(serde::Serialize)] struct S;",
    ];
    for src in used {
        let ident = if src.contains("serde") {
            "serde"
        } else {
            "regex"
        };
        assert!(uses(src, ident), "{src:?} uses {ident}");
    }
    let unused = [
        "",
        "let regex_count = 1;",
        "fn my_regex() {}",
        "// see the regex docs",
        "let reuse = 1; reuse regex",
        "mod regexes;",
    ];
    for src in unused {
        assert!(!uses(src, "regex"), "{src:?} does not use regex");
    }
}

#[test]
fn spaces_do_not_hide_a_use() {
    assert!(uses("use\n\tregex ;", "regex"));
    assert!(uses("regex  ::new()", "regex"));
    assert!(uses("extern  crate\n regex;", "regex"));
    assert!(!uses("crate regex;", "regex"));
    assert!(!uses("my_extern_crate regex;", "regex"));
    assert!(uses("regexes; regex_; regex::x", "regex"));
    assert!(uses("é use regex;", "regex"));
    assert!(uses("::", ""));
    assert!(!uses("a", ""));
}

#[test]
fn source_is_looked_for_in_the_package_alone() {
    let file = |name: &str, text: Option<&str>| Source::File {
        name: name.to_string(),
        text: text.map(String::from),
    };
    let dir = |name: &str, nested: bool, items: Vec<Source>| Source::Dir {
        name: name.to_string(),
        nested,
        items,
    };
    let items = vec![
        file("build.rs", Some("one")),
        file("notes.txt", Some("no")),
        dir("src", false, vec![file("lib.rs", Some("two")), file("bad.rs", None)]),
        dir("target", false, vec![file("x.rs", Some("no"))]),
        dir(".git", false, vec![file("x.rs", Some("no"))]),
        dir("other", true, vec![file("x.rs", Some("no"))]),
    ];
    assert_eq!(rust_sources(&items), "one\ntwo\n");
    assert!(searches("src", false));
    assert!(!searches("src", true));
    assert!(!searches(".github", false));
    assert!(!searches("target", false));
    assert!(reads("a.rs"));
    assert!(!reads("a.rst"));
}

#[test]
fn reads_cargo_update_dry_run_output() {
    let text = "    Updating crates.io index
     Locking 0 packages to latest compatible versions
   Unchanged rand v0.7.3 (available: v0.10.2)
    Updating serde v1.0.100 -> v1.0.229
   Unchanged rand v0.7.3 (available: v0.10.2)
note: to see how you depend on a package, run `cargo tree --invert <dep>@<ver>`
warning: not updating lockfile due to dry run";
    assert_eq!(
        parse_update(text),
        vec![
            ("rand".into(), "v0.7.3".into(), "v0.10.2".into()),
            ("serde".into(), "v1.0.100".into(), "v1.0.229".into()),
        ]
    );
}

#[test]
fn parses_the_removal_prompt() {
    assert_eq!(parse_selection("", 3), Ok(vec![]));
    assert_eq!(parse_selection(" none\n", 3), Ok(vec![]));
    assert_eq!(parse_selection("3,1 1", 3), Ok(vec![1, 3]));
    assert_eq!(parse_selection("2\n", 3), Ok(vec![2]));
    for bad in ["0", "4", "1,x", "-1", "all"] {
        assert!(parse_selection(bad, 3).is_err(), "{bad}");
    }
}

#[test]
fn a_wrong_answer_is_quoted() {
    assert_eq!(
        parse_selection("1,,x 9", 3),
        Err("`x` is not a number from 1 to 3".to_string())
    );
    assert_eq!(
        parse_selection("99999999999999999999999", 3),
        Err("`99999999999999999999999` is not a number from 1 to 3".to_string())
    );
    assert_eq!(parse_selection("N", 3), Ok(vec![]));
    assert_eq!(parse_selection("+2", 3), Ok(vec![2]));
    assert_eq!(parse_selection(", ,", 3), Ok(vec![]));
    assert!(matches!(choose_removal(None, 3), Choice::Unread));
    assert!(matches!(choose_removal(Some("n"), 3), Choice::Nothing));
    assert!(
        matches!(choose_removal(Some("2 1"), 3), Choice::Remove(picked) if picked == vec![1, 2])
    );
    assert!(matches!(
        choose_removal(Some("x"), 3),
        Choice::Wrong(line)
            if line == "cargo-disk: `x` is not a number from 1 to 3 — nothing removed"
    ));
}

#[test]
fn only_what_no_other_edge_reaches_is_freed() {
    let meta = read();
    let app = meta.package("app").unwrap();
    let known = sizes(&[("regex", 10), ("memchr", 5), ("serde", 7), ("md5", 3), ("md_5", 1)]);
    // Two entries of app's manifest are for regex.
    assert_eq!(freed_if_removed(&meta, app, "regex", &known), 0);
    // lib depends on serde too.
    assert_eq!(freed_if_removed(&meta, app, "serde", &known), 0);
    assert_eq!(freed_if_removed(&meta, app, "md", &known), 4);
    let regex = meta.package("regex").unwrap();
    assert_eq!(freed_if_removed(&meta, regex, "memchr", &known), 5);
}

#[test]
fn reaching_follows_edges_from_the_roots() {
    let meta = read();
    let mut all = reach(&meta.nodes, &meta.members, None);
    all.sort();
    assert_eq!(all, vec!["app", "lib", "md", "memchr", "regex", "serde"]);
    let skip = Some(Skip { from: "app", to: "regex" });
    let mut some = reach(&meta.nodes, &meta.members, skip);
    some.sort();
    assert_eq!(some, vec!["app", "lib", "md", "serde"]);
    assert_eq!(reach(&[], &texts(&["x", "x"]), None), vec!["x"]);
}

#[test]
fn what_the_source_does_not_name_is_unused() {
    let meta = read();
    assert!(entries_fit(&meta));
    let known = sizes(&[("regex", 10), ("memchr", 5), ("md5", 3)]);
    let sources = texts(&["use regex::Regex;", "use serde;"]);
    let (found, ignored) = find_unused(&meta, &sources, &known);
    // winapi was never activated, linked-sys is ignored, the second regex repeats.
    let keys: Vec<(&str, &str, u64)> = found
        .iter()
        .map(|u| (u.member.as_str(), u.key.as_str(), u.freed))
        .collect();
    assert_eq!(keys, vec![("app", "serde", 0), ("app", "hash-ing", 3)]);
    assert_eq!(found[1].package, "md-5");
    assert_eq!(found[1].kind, Kind::Dev);
    assert_eq!(ignored, 1);
}

#[test]
fn outdated_means_direct_dependencies() {
    let meta = read();
    assert!(has_deps(&meta));
    let none = from_json(&json::parse(r#"{"target_directory":"/t","packages":[]}"#).unwrap());
    assert!(!has_deps(&none.unwrap()));
    let row = |name: &str| (name.to_string(), "v1".to_string(), "v2".to_string());
    let kept = direct_only(&meta, vec![row("md-5"), row("memchr"), row("serde")]);
    assert_eq!(kept, vec![row("md-5"), row("serde")]);
}

#[test]
fn lists_what_is_unused_and_outdated() {
    let list = [
        unused("regex", "regex", Kind::Normal, None, 1536),
        unused("hashing", "md-5", Kind::Dev, None, 0),
    ];
    let outdated = [
        ("rand".to_string(), "v0.7.3".to_string(), "v0.10.2".to_string()),
        ("md-5".to_string(), "v1".to_string(), "v2".to_string()),
    ];
    let mut out = String::new();
    render(&mut out, &list, 1, Some(&outdated), false);
    let width = 24;
    let want = format!(
        "Cargo Disk — Dependencies\n{}\n\nPotentially unused{:>w$}\n\
         {:>3}  {:<width$}  {:>12}\n{:>3}  {:<width$}  {:>12}\n\n\
         Found by searching the source for `name::`, `use name` and\n\
         `extern crate name`. A crate that is only linked (often `-sys`)\n\
         or only enables a feature shows up here too; list it under\n\
         [package.metadata.cargo-disk] ignore = [\"name\"] in Cargo.toml.\n\n\
         1 dependency ignored via [package.metadata.cargo-disk]\n\n\
         Outdated (direct dependencies)\n     rand  v0.7.3 → v0.10.2\n     md-5  v1     → v2\n\n",
        "─".repeat(40),
        "freed if removed",
        1,
        "regex",
        "~1.50 KB",
        2,
        "hashing (md-5)  dev",
        "—",
        w = width + 1,
    );
    assert_eq!(out, want);
}

#[test]
fn says_so_where_there_is_nothing_to_list() {
    let mut out = String::new();
    render(&mut out, &[], 2, None, true);
    assert!(out.contains("\nNo potentially unused dependencies.\n"));
    assert!(out.contains("\n2 dependencies ignored via [package.metadata.cargo-disk]\n"));
    assert!(out.ends_with("\n  couldn't check for updates (offline?)\n\n"));
    let mut out = String::new();
    render(
        &mut out,
        &[unused("a-key-that-is-wide", "a-key-that-is-wide", Kind::Build, None, 0)],
        0,
        Some(&[]),
        true,
    );
    assert!(out.contains("  1  app: a-key-that-is-wide  build             —\n"));
    assert!(!out.contains("ignored via"));
    assert!(out.ends_with("\n  all up to date\n\n"));
}

#[test]
fn the_report_is_made_of_all_that() {
    let meta = read();
    let file = |names: &[&str], bytes: u64| Entry {
        path: FilePath {
            parts: names.iter().map(|n| Component::Normal(n.to_string())).collect(),
        },
        bytes,
        modified: Timestamp { secs: 0, nanos: 0 },
    };
    let files = [file(&["t", "debug", "deps", "libmd5-1.rlib"], 2048)];
    let dirs = [FilePath { parts: vec![Component::Normal("t".to_string())] }];
    let sources = texts(&["use regex; use serde;", "use serde;"]);
    let update = "Updating serde v1 -> v2\nUpdating memchr v1 -> v2\n";
    let (text, found) = run(&meta, &files, &dirs, &sources, Some(update));
    assert_eq!(found.len(), 1);
    assert!(text.contains("  1  app: hash-ing (md-5)  dev      ~2.00 KB\n"), "{text}");
    assert!(text.contains("\n     serde  v1 → v2\n\n"));
    assert!(!text.contains("memchr"));
}

#[test]
fn removals_are_left_to_cargo() {
    assert_eq!(
        removal_args(&unused("a", "a", Kind::Normal, None, 0)),
        texts(&["remove", "--manifest-path", "/p/Cargo.toml", "a"])
    );
    assert_eq!(
        removal_args(&unused("a", "b", Kind::Dev, Some("cfg(unix)"), 0)),
        texts(&[
            "remove",
            "--manifest-path",
            "/p/Cargo.toml",
            "--dev",
            "--target",
            "cfg(unix)",
            "a",
        ])
    );
    assert_eq!(removal_args(&unused("a", "b", Kind::Build, None, 0))[3], "--build");
    let a = unused("a", "a", Kind::Normal, None, 0);
    let mut removal = Removal::new();
    assert_eq!(removal.begin(&a, "Cargo.toml"), "Running: cargo remove a");
    assert_eq!(removal.end(&a, true), None);
    removal.begin(&a, "lib/Cargo.toml");
    removal.begin(&a, "Cargo.toml");
    assert_eq!(removal.touched, texts(&["Cargo.toml", "lib/Cargo.toml"]));
    assert_eq!(removal.finish().1, 0);
    assert_eq!(
        removal.end(&a, false).as_deref(),
        Some("cargo-disk: removing a failed")
    );
    assert_eq!(
        removal.finish(),
        (
            "\nRun `cargo build` to confirm it still compiles.\n\
             Undo with `git checkout Cargo.toml lib/Cargo.toml Cargo.lock`.\n"
                .to_string(),
            1
        )
    );
}

#[test]
fn a_project_without_dependencies_ends_at_once() {
    let failed = start(Err("no network".to_string()));
    assert_eq!(failed.exit_code(), Some(1));
    assert!(matches!(
        failed,
        Start::Failed(text)
            if text == "cargo-disk: no network\ncargo-disk: `deps` needs a resolved Cargo.lock — run `cargo build` first"
    ));
    let doc = json::parse(r#"{"target_directory":"/t","packages":[]}"#).unwrap();
    let none = start(Ok(from_json(&doc).unwrap()));
    assert_eq!(none.exit_code(), Some(0));
    assert!(matches!(
        none,
        Start::NoDeps(text) if text == "This project has no dependencies."
    ));
    let go = start(Ok(read()));
    assert_eq!(go.exit_code(), None);
    assert!(matches!(go, Start::Go(meta) if meta.members.len() == 2));
}

#[test]
fn removal_is_offered_on_a_terminal_where_something_is_unused() {
    let one = [unused("a", "a", Kind::Normal, None, 0)];
    assert!(matches!(after_report(&one, true), After::Offer));
    assert!(matches!(after_report(&one, false), After::Stop(0)));
    assert!(matches!(after_report(&[], true), After::Stop(0)));
    assert!(matches!(after_report(&[], false), After::Stop(0)));
}

#[test]
fn an_answer_that_removes_nothing_has_its_exit_code() {
    assert_eq!(choose_removal(None, 3).exit_code(), Some(1));
    assert_eq!(choose_removal(Some("1,x"), 3).exit_code(), Some(2));
    assert_eq!(choose_removal(Some("none"), 3).exit_code(), Some(0));
    assert_eq!(choose_removal(Some("1"), 3).exit_code(), None);
}

#[test]
fn a_number_stands_for_the_row_it_is_shown_at() {
    let rows = [
        unused("a", "a", Kind::Normal, None, 0),
        unused("b", "b", Kind::Normal, None, 0),
    ];
    assert_eq!(chosen_row(&rows, 1).key, "a");
    assert_eq!(chosen_row(&rows, 2).key, "b");
}
