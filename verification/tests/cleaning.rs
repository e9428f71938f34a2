use cargo_disk::clean::{
    confirm, incremental_dirs, listing, look_again, next_step, plan, prompt, removable, reply, Cache,
    Candidate, Child, Fate, Profile, Removal, Reply, Step,
};
use cargo_disk::path::{Component, FilePath};

fn path(text: &str) -> FilePath {
    let mut parts = Vec::new();
    for part in std::path::Path::new(text).components() {
        let name = part.as_os_str().to_string_lossy().into_owned();
        parts.push(match part {
            std::path::Component::Prefix(_) => Component::Prefix(name),
            std::path::Component::RootDir => Component::RootDir,
            std::path::Component::CurDir => Component::CurDir,
            std::path::Component::ParentDir => Component::ParentDir,
            std::path::Component::Normal(_) => Component::Normal(name),
        });
    }
    FilePath { parts }
}

fn candidate(text: &str, is_real_dir: bool, canonical: Option<&str>) -> Candidate {
    Candidate { path: path(text), is_real_dir, canonical: canonical.map(path) }
}

fn profile(id: usize, dir: &str, has_fingerprint: bool, real: bool, canonical: &str) -> Profile {
    Profile {
        id,
        has_fingerprint,
        cache: candidate(&format!("{dir}/incremental"), real, Some(canonical)),
    }
}

fn cache(text: &str, id: usize, bytes: u64) -> Cache {
    Cache { path: path(text), id, bytes, shown: text.to_string() }
}

#[test]
fn only_incremental_dirs_inside_target_are_removable() {
    let target = path("/t");
    let children = |linked: bool| {
        vec![
            Child {
                own: profile(
                    9,
                    "/t/x86_64-unknown-linux-gnu",
                    false,
                    false,
                    "/t/x86_64-unknown-linux-gnu/incremental",
                ),
                // The cross-compilation layout: target/<triple>/<profile>/incremental.
                nested: vec![profile(
                    2,
                    "/t/x86_64-unknown-linux-gnu/release",
                    true,
                    true,
                    "/t/x86_64-unknown-linux-gnu/release/incremental",
                )],
            },
            Child {
                own: profile(1, "/t/debug", true, true, "/t/debug/incremental"),
                nested: vec![
                    // Not a profile directory, so its `incremental` is not a cache.
                    profile(3, "/t/debug/deps", false, true, "/t/debug/deps/incremental"),
                    profile(4, "/t/debug/build", false, false, "/t/debug/build/incremental"),
                ],
            },
            Child {
                own: profile(5, "/t/release", linked, false, "/outside/incremental"),
                nested: vec![],
            },
        ]
    };
    for linked in [false, true] {
        // A symlinked cache is skipped, not followed.
        let found = incremental_dirs(&children(linked), &target);
        let ids: Vec<usize> = found.iter().map(|(_, id)| *id).collect();
        assert_eq!(ids, vec![1, 2]);
        assert!(found[0].0.is(&path("/t/debug/incremental")));
        assert!(found[1]
            .0
            .is(&path("/t/x86_64-unknown-linux-gnu/release/incremental")));
    }
    let good = candidate("/t/debug/incremental", true, Some("/t/debug/incremental"));
    assert!(removable(&good, &target));
    let wrong = candidate("/t/debug/build", true, Some("/t/debug/build"));
    assert!(!removable(&wrong, &target), "wrong name");
    let outside = candidate("/outside/incremental", true, Some("/outside/incremental"));
    assert!(!removable(&outside, &target), "outside target");
    let missing = candidate("/t/debug/nope", false, None);
    assert!(!removable(&missing, &target), "missing");
    let link = candidate("/t/release/incremental", false, Some("/outside/incremental"));
    assert!(!removable(&link, &target), "symlinks are never removed");
    assert!(look_again(&good, &target).is_none());
    assert!(matches!(look_again(&link, &target), Some(Fate::Changed)));
    let itself = candidate("/incremental", true, Some("/incremental"));
    assert!(!removable(&itself, &path("/incremental")), "not target itself");
}

#[test]
fn only_caches_that_hold_something_are_planned_and_each_once() {
    let dirs = plan(vec![
        cache("/t/a/incremental", 1, 0),
        cache("/t/b/incremental", 2, 5),
        cache("/t/b/incremental", 3, 5),
        cache("/t/c/incremental", 4, 1536),
    ]);
    let ids: Vec<usize> = dirs.iter().map(|d| d.id).collect();
    assert_eq!(ids, vec![2, 4]);
    assert_eq!(
        listing(&dirs),
        "5 B        /t/b/incremental\n1.50 KB    /t/c/incremental\n"
    );
}

#[test]
fn nothing_is_removed_without_being_asked_for() {
    let dirs = [cache("/t/a/incremental", 1, 1024)];
    let list = listing(&dirs);
    let step = next_step(false, &[], false, true);
    assert_eq!(step.exit_code(), Some(1));
    assert!(matches!(
        step,
        Step::NotBuilt(text) if text == "cargo-disk: nothing built yet — no target directory"
    ));
    let step = next_step(true, &[], false, true);
    assert_eq!(step.exit_code(), Some(0));
    assert!(matches!(
        step,
        Step::NoCaches(text) if text == "No incremental caches found."
    ));
    for yes in [false, true] {
        let step = next_step(true, &dirs, true, yes);
        assert_eq!(step.exit_code(), Some(0));
        assert!(matches!(
            step,
            Step::DryRun(text) if text == format!("{list}\nDry run: nothing deleted (1.00 KB).\n")
        ));
    }
    let step = next_step(true, &dirs, false, true);
    assert_eq!(step.exit_code(), None);
    assert!(matches!(step, Step::Remove(text) if text == list));
    let step = next_step(true, &dirs, false, false);
    assert_eq!(step.exit_code(), None);
    assert!(matches!(
        step,
        Step::Ask(text) if text == format!("{list}{}", prompt(1, 1024))
    ));
}

#[test]
fn a_declined_answer_ends_well() {
    let declined = reply(Some("no\n"));
    assert_eq!(declined.exit_code(), Some(0));
    assert!(matches!(declined, Reply::Declined(text) if text == "Aborted."));
    assert_eq!(reply(None).exit_code(), Some(0));
    let agreed = reply(Some("y\n"));
    assert_eq!(agreed.exit_code(), None);
    assert!(matches!(agreed, Reply::Remove));
}

#[test]
fn asks_before_removing() {
    assert_eq!(
        prompt(1, 1024),
        "\nThis will delete incremental compilation caches.\n\
         Cargo/rustc will recreate them as needed.\n\
         The next build may take longer.\n\n\
         Delete 1 directory (1.00 KB)? [y/N] "
    );
    assert!(prompt(2, 0).ends_with("\nDelete 2 directories (0 B)? [y/N] "));
    assert!(confirm(Some(" Y\n")));
    assert!(confirm(Some("y")));
    assert!(!confirm(Some("yes")));
    assert!(!confirm(Some("")));
    assert!(!confirm(None));
}

#[test]
fn only_what_was_removed_counts_as_freed() {
    let dir = cache("/t/a/incremental", 1, 1024);
    let mut removal = Removal::new();
    assert_eq!(removal.finish(), ("Freed 0 B.".to_string(), 0));
    assert_eq!(removal.note(&dir, &Fate::Removed), None);
    assert_eq!(removal.finish(), ("Freed 1.00 KB.".to_string(), 0));
    assert_eq!(
        removal.note(&dir, &Fate::Changed).as_deref(),
        Some("cargo-disk: skipped /t/a/incremental — changed since listing")
    );
    assert_eq!(
        removal.note(&dir, &Fate::Failed("busy".to_string())).as_deref(),
        Some("cargo-disk: /t/a/incremental: busy")
    );
    assert_eq!(removal.finish(), ("Freed 1.00 KB.".to_string(), 1));
}
