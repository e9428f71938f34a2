use cargo_disk::json::{self, Json};
use cargo_disk::metadata::{from_json, load, metadata_args, CargoOutput, Kind, Metadata, Mode};
use cargo_disk::usage::{is_orphan, known_crates};

const DOC: &str = r#"{
    "target_directory": "/p/out", "build_directory": "/p/bld",
    "workspace_members": ["path+file:///p#app@0.1.0"],
    "packages": [
      {"id": "path+file:///p#app@0.1.0", "name": "app",
       "manifest_path": "/p/Cargo.toml",
       "targets": [{"kind": ["bin"], "name": "app"}],
       "dependencies": [
         {"name": "md-5", "rename": "hashing", "kind": null, "target": null},
         {"name": "memchr", "rename": null, "kind": "dev", "target": null},
         {"name": "winapi", "rename": null, "kind": null, "target": "cfg(windows)"}],
       "metadata": {"cargo-disk": {"ignore": ["winapi"]}}},
      {"id": "reg#md-5@0.10.6", "name": "md-5", "manifest_path": "/r/Cargo.toml",
       "targets": [{"kind": ["lib"], "name": "md5"}],
       "dependencies": [], "metadata": null}],
    "resolve": {"nodes": [
      {"id": "path+file:///p#app@0.1.0", "deps": [
        {"name": "hashing", "pkg": "reg#md-5@0.10.6",
         "dep_kinds": [{"kind": null, "target": null}]}]}]}
}"#;

fn read(text: &str) -> Metadata {
    from_json(&json::parse(text).unwrap()).unwrap()
}

fn number(value: Option<&Json>) -> Option<f64> {
    match value {
        Some(Json::Num(text)) => text.parse::<f64>().ok(),
        _ => None,
    }
}

#[test]
fn parses_what_cargo_metadata_emits() {
    let doc = json::parse(
        r#" {"packages":[{"name":"md-5","rename":null,"optional":false,
            "targets":[{"kind":["lib"],"name":"md5"}]}],
            "version":1, "ratio":-1.5e2, "ok":true,
            "path":"C:\\code\\x", "quote":"a\"b", "uni":"\u00e9\ud83d\ude00"} "#,
    )
    .unwrap();
    let pkg = &doc.get("packages").unwrap().arr()[0];
    assert_eq!(pkg.get("name").and_then(Json::str), Some("md-5"));
    assert_eq!(pkg.get("rename"), Some(&Json::Null));
    assert_eq!(pkg.get("rename").unwrap().arr(), &[] as &[Json]);
    assert_eq!(
        pkg.get("targets").unwrap().arr()[0]
            .get("name")
            .and_then(Json::str),
        Some("md5")
    );
    assert_eq!(number(doc.get("version")), Some(1.0));
    assert_eq!(number(doc.get("ratio")), Some(-150.0));
    assert_eq!(doc.get("ok"), Some(&Json::Bool(true)));
    assert_eq!(doc.get("path").and_then(Json::str), Some("C:\\code\\x"));
    assert_eq!(doc.get("quote").and_then(Json::str), Some("a\"b"));
    assert_eq!(doc.get("uni").and_then(Json::str), Some("é😀"));
}

#[test]
fn rejects_malformed_input() {
    for bad in [
        "",
        "{",
        "[1,]",
        "{\"a\" 1}",
        "\"unterminated",
        "{} extra",
        "tru",
    ] {
        assert_eq!(json::parse(bad), None, "{bad:?}");
    }
}

#[test]
fn numbers_are_those_that_can_be_read_as_numbers() {
    for text in [
        "0", "-0", "007", "1.", ".5", "1e5", "1E+5", "1.5e-3", "+1", "-", "+", ".", "1e", "1e+",
        "1.2.3", "--1", "1-2", "e5", "1e5.0",
    ] {
        assert_eq!(json::parse(text).is_some(), text.parse::<f64>().is_ok(), "{text}");
    }
}

#[test]
fn strings_may_hold_every_escape() {
    let doc = json::parse(r#""\"\\\/\b\f\n\r\t\u0041""#).unwrap();
    assert_eq!(doc.str(), Some("\"\\/\u{8}\u{c}\n\r\tA"));
    // Half of a pair stands for no character.
    assert_eq!(json::parse(r#""\ud800""#).unwrap().str(), Some("\u{FFFD}"));
    for bad in [r#""\x""#, r#""\u12""#, r#""\ud800\u0041""#, r#""\""#] {
        assert_eq!(json::parse(bad), None, "{bad}");
    }
}

#[test]
fn a_document_is_one_value_in_any_spacing() {
    for text in ["{\"a\": [1, null]}", "[]", "\"x\"", "12", "true", "{", "1 2", ""] {
        let spaced = format!("\n\t {text} \r\x0C");
        assert_eq!(json::parse(&spaced), json::parse(text), "{text}");
    }
    for text in ["{}", "[1]", "\"x\"", "12", "false"] {
        for c in ["{", "[", "\"", "t", "}", "]"] {
            assert_eq!(json::parse(&format!("{text}{c}")), None, "{text}{c}");
            assert_eq!(json::parse(&format!("{text} {c}")), None, "{text} {c}");
        }
    }
    assert_eq!(json::parse("1 2"), None);
    assert!(json::parse("12").is_some());
}

#[test]
fn the_first_of_equal_keys_is_found() {
    let doc = json::parse(r#"{"a":1,"a":2,"b":[true,false]}"#).unwrap();
    assert_eq!(number(doc.get("a")), Some(1.0));
    assert_eq!(doc.get("b").unwrap().arr().len(), 2);
    assert_eq!(doc.get("c"), None);
    assert_eq!(doc.get("a").unwrap().get("x"), None);
    assert_eq!(doc.str(), None);
}

#[test]
fn reads_the_fields_the_tool_relies_on() {
    let meta = read(DOC);
    assert_eq!(meta.target_dir, "/p/out");
    assert_eq!(meta.build_dir, "/p/bld");
    assert_eq!(meta.members, vec!["path+file:///p#app@0.1.0"]);

    let app = meta.package("path+file:///p#app@0.1.0").unwrap();
    assert_eq!(app.ignore, vec!["winapi"]);
    assert_eq!(app.deps[0].rename.as_deref(), Some("hashing"));
    assert_eq!(app.deps[1].kind, Kind::Dev);
    assert_eq!(app.deps[2].target.as_deref(), Some("cfg(windows)"));

    let md5 = meta.package("reg#md-5@0.10.6").unwrap();
    assert_eq!(md5.artifact_names(), vec!["md5", "md_5"]);

    let dep = &meta.node("path+file:///p#app@0.1.0").unwrap().deps[0];
    assert_eq!(
        (dep.name.as_str(), dep.kinds.as_slice()),
        ("hashing", &[Kind::Normal][..])
    );

    let names: Vec<String> = meta.artifact_names();
    assert!(
        names.contains(&"md5".to_string()),
        "lib name, not just package name"
    );
}

#[test]
fn older_cargo_without_build_directory_falls_back_to_target() {
    let meta = read(r#"{"target_directory":"/t","packages":[]}"#);
    assert_eq!(meta.build_dir, "/t");
    assert!(meta.nodes.is_empty());
}

#[test]
fn lib_names_count_as_known_not_just_package_names() {
    // The lockfile only says md-5; target/ says md5. On a freshly built
    // clob-rs this invented three orphans (md5, webpki, utf8).
    let lock = "[[package]]\nname = \"md-5\"\n";
    let meta = read(
        r#"{"target_directory":"/t","packages":[{"id":"m","name":"md-5",
        "manifest_path":"/m/Cargo.toml","dependencies":[],
        "targets":[{"kind":["lib"],"name":"md5"}]}]}"#,
    );
    let known = known_crates(Some(lock), &meta);
    assert!(!is_orphan("md5", &known));
    assert!(!is_orphan("md_5", &known));
    assert!(is_orphan("regex", &known));
}

#[test]
fn the_lockfile_adds_to_what_is_known() {
    let meta = read(r#"{"target_directory":"/t","packages":[]}"#);
    let known = known_crates(Some("  name = \"proc-macro2\"\r\nversion = 1\n"), &meta);
    assert!(!is_orphan("proc_macro2", &known));
    assert!(is_orphan("proc-macro2", &known));
    let known = known_crates(None, &meta);
    assert!(is_orphan("proc_macro2", &known));
}

#[test]
fn cargo_is_asked_for_as_much_as_is_needed() {
    assert_eq!(
        metadata_args(Mode::NoDeps),
        vec!["metadata", "--format-version", "1", "--no-deps", "--offline"]
    );
    assert_eq!(
        metadata_args(Mode::Offline),
        vec!["metadata", "--format-version", "1", "--frozen"]
    );
    assert_eq!(
        metadata_args(Mode::Online),
        vec!["metadata", "--format-version", "1", "--locked"]
    );
}

#[test]
fn metadata_that_cannot_be_had_says_why() {
    let why = |output: CargoOutput| load(output).err().unwrap();
    assert_eq!(
        why(CargoOutput::NotRun("no such file".to_string())),
        "could not run cargo: no such file"
    );
    assert_eq!(
        why(CargoOutput::Failed("error: one\nerror: two\n".to_string())),
        "error: one"
    );
    assert_eq!(
        why(CargoOutput::Failed(String::new())),
        "cargo metadata failed"
    );
    assert_eq!(why(CargoOutput::Done(None)), "cargo metadata: not UTF-8");
    assert_eq!(
        why(CargoOutput::Done(Some("{".to_string()))),
        "cargo metadata: unreadable output"
    );
    assert_eq!(
        why(CargoOutput::Done(Some("{}".to_string()))),
        "cargo metadata: unexpected format"
    );
    assert!(load(CargoOutput::Done(Some(DOC.to_string()))).is_ok());
}
