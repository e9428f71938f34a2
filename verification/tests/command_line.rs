use cargo_disk::cli::{located, not_a_directory, parse, usage_error, user_args, Cmd, USAGE};

fn words(text: &str) -> Vec<String> {
    text.split_whitespace().map(String::from).collect()
}

#[test]
fn parses_every_command_form() {
    let parse = |s: &str| parse(&words(s));
    assert_eq!(parse(""), Ok(Cmd::Report));
    assert_eq!(parse("--help"), Ok(Cmd::Help));
    assert_eq!(parse("--version"), Ok(Cmd::Version));
    assert_eq!(parse("--all /code"), Ok(Cmd::All("/code".to_string())));
    assert_eq!(
        parse("clean --incremental"),
        Ok(Cmd::Clean {
            dry_run: false,
            yes: false
        })
    );
    assert_eq!(
        parse("clean --incremental --dry-run --yes"),
        Ok(Cmd::Clean {
            dry_run: true,
            yes: true
        })
    );
    for bad in ["--json", "--all", "--all a b", "clean", "clean --all"] {
        assert!(parse(bad).is_err(), "{bad} must be rejected");
    }
    assert!(parse("clean").unwrap_err().contains("cargo clean"));
}

#[test]
fn short_flags_mean_the_same() {
    assert_eq!(parse(&words("-h")), Ok(Cmd::Help));
    assert_eq!(parse(&words("-V")), Ok(Cmd::Version));
    assert_eq!(parse(&words("deps")), Ok(Cmd::Deps));
    assert_eq!(
        parse(&words("clean -y --incremental")),
        Ok(Cmd::Clean {
            dry_run: false,
            yes: true
        })
    );
}

#[test]
fn every_mistake_has_its_message() {
    let message = |text: &str| parse(&words(text)).unwrap_err();
    assert_eq!(
        message("--all"),
        "--all needs a directory, e.g. `cargo disk --all ~/code`"
    );
    assert_eq!(message("--all a b"), "--all takes one directory");
    assert_eq!(message("deps x"), "unknown flag for deps: x");
    assert_eq!(
        message("clean --incremental --all --more"),
        "unknown flag for clean: --all"
    );
    assert_eq!(
        message("clean --dry-run"),
        "`clean` needs --incremental. To remove everything, use `cargo clean`"
    );
    assert_eq!(message("--json"), "unknown argument: --json");
}

#[test]
fn cargo_puts_the_subcommand_first() {
    assert_eq!(user_args(&words("cargo-disk disk --all x")), &words("--all x")[..]);
    assert_eq!(user_args(&words("cargo-disk disk disk deps")), &words("deps")[..]);
    assert_eq!(user_args(&words("cargo-disk deps disk")), &words("deps disk")[..]);
    assert!(user_args(&words("cargo-disk")).is_empty());
    assert!(user_args(&[]).is_empty());
}

#[test]
fn usage_follows_a_complaint() {
    assert_eq!(
        usage_error("unknown argument: x"),
        format!("cargo-disk: unknown argument: x\n\n{USAGE}")
    );
    assert!(USAGE.starts_with("usage:\n  cargo disk  "));
    assert!(USAGE.ends_with("\n  cargo disk --help | --version"));
    assert_eq!(
        not_a_directory("/nope"),
        "cargo-disk: /nope is not a directory — pass the folder that holds your projects, e.g. `cargo disk --all ~/code`"
    );
}

#[test]
fn the_located_manifest_stands_alone_on_its_line() {
    assert_eq!(located("/p/Cargo.toml\n"), "/p/Cargo.toml");
}
