//! What `cargo metadata` says of a project: its packages, and which depend on which.

use crate::json::{parse, Json, JsonView};
use crate::order::{lemma_sorted_once, lemma_texts_are_ranked, sort_once, sorted_once, Ranked};
use crate::text::{
    chars_of, lemma_underscored, lines, same, split_lines, text_of, underscore, underscored, views,
};
use vstd::prelude::*;

verus! {

// ---------------------------------------------------------------- the model
pub struct Metadata {
    pub target_dir: String,
    // Where deps/, build/ and incremental/ go. Same as target_dir unless
    // `build.build-dir` is set, in which case target_dir holds little more
    // than the final binaries.
    pub build_dir: String,
    pub packages: Vec<Package>,
    pub members: Vec<String>,
    pub nodes: Vec<Node>,
}

pub struct Package {
    pub id: String,
    pub name: String,
    pub manifest_path: String,
    pub targets: Vec<Target>,
    pub deps: Vec<Dep>,
    pub ignore: Vec<String>,
}

pub struct Target {
    pub name: String,
    pub is_lib: bool,
}

pub struct Dep {
    pub name: String,
    pub rename: Option<String>,
    pub kind: Kind,
    pub target: Option<String>,
}

pub struct Node {
    pub id: String,
    pub deps: Vec<NodeDep>,
}

pub struct NodeDep {
    /// The identifier code uses: the rename, or the dependency's lib name.
    pub name: String,
    pub pkg: String,
    pub kinds: Vec<Kind>,
}

#[derive(Clone, Copy, Debug, PartialEq, Eq, Hash, Structural)]
pub enum Kind {
    Normal,
    Dev,
    Build,
}

/// How much of the graph to ask Cargo for.
pub enum Mode {
    /// Local packages only. Never needs the network or dependency sources.
    NoDeps,
    /// Full graph, but only from what is already downloaded.
    Offline,
    /// Full graph, downloading sources if needed, never rewriting Cargo.lock.
    Online,
}

/// What a [`Metadata`] holds.
#[verifier::ext_equal]
pub struct MetadataView {
    pub target_dir: Seq<char>,
    pub build_dir: Seq<char>,
    pub packages: Seq<PackageView>,
    pub members: Seq<Seq<char>>,
    pub nodes: Seq<NodeView>,
}

/// What a [`Package`] holds.
#[verifier::ext_equal]
pub struct PackageView {
    pub id: Seq<char>,
    pub name: Seq<char>,
    pub manifest_path: Seq<char>,
    pub targets: Seq<TargetView>,
    pub deps: Seq<DepView>,
    pub ignore: Seq<Seq<char>>,
}

/// What a [`Target`] holds.
#[verifier::ext_equal]
pub struct TargetView {
    pub name: Seq<char>,
    pub is_lib: bool,
}

/// What a [`Dep`] holds.
#[verifier::ext_equal]
pub struct DepView {
    pub name: Seq<char>,
    pub rename: Option<Seq<char>>,
    pub kind: Kind,
    pub target: Option<Seq<char>>,
}

/// What a [`Node`] holds.
#[verifier::ext_equal]
pub struct NodeView {
    pub id: Seq<char>,
    pub deps: Seq<EdgeView>,
}

/// What a [`NodeDep`] holds.
#[verifier::ext_equal]
pub struct EdgeView {
    pub name: Seq<char>,
    pub pkg: Seq<char>,
    pub kinds: Seq<Kind>,
}

/// The characters of a text, if there is one.
pub open spec fn opt_text(text: Option<String>) -> Option<Seq<char>> {
    match text {
        Some(t) => Some(t@),
        None => None,
    }
}

impl View for Metadata {
    type V = MetadataView;

    open spec fn view(&self) -> MetadataView {
        MetadataView {
            target_dir: self.target_dir@,
            build_dir: self.build_dir@,
            packages: views(self.packages@),
            members: views(self.members@),
            nodes: views(self.nodes@),
        }
    }
}

impl View for Package {
    type V = PackageView;

    open spec fn view(&self) -> PackageView {
        PackageView {
            id: self.id@,
            name: self.name@,
            manifest_path: self.manifest_path@,
            targets: views(self.targets@),
            deps: views(self.deps@),
            ignore: views(self.ignore@),
        }
    }
}

impl View for Target {
    type V = TargetView;

    open spec fn view(&self) -> TargetView {
        TargetView { name: self.name@, is_lib: self.is_lib }
    }
}

impl View for Dep {
    type V = DepView;

    open spec fn view(&self) -> DepView {
        DepView {
            name: self.name@,
            rename: opt_text(self.rename),
            kind: self.kind,
            target: opt_text(self.target),
        }
    }
}

impl View for Node {
    type V = NodeView;

    open spec fn view(&self) -> NodeView {
        NodeView { id: self.id@, deps: views(self.deps@) }
    }
}

impl View for NodeDep {
    type V = EdgeView;

    open spec fn view(&self) -> EdgeView {
        EdgeView { name: self.name@, pkg: self.pkg@, kinds: self.kinds@ }
    }
}

// ---------------------------------------------------------------- what a document says
/// The text in the field `key`.
pub open spec fn text_at(v: JsonView, key: Seq<char>) -> Option<Seq<char>> {
    match v.get(key) {
        Some(field) => field.str(),
        None => None,
    }
}

/// The elements in the field `key`; none where it is missing or no array.
pub open spec fn items_at(v: JsonView, key: Seq<char>) -> Seq<JsonView> {
    match v.get(key) {
        Some(field) => field.arr(),
        None => Seq::empty(),
    }
}

/// The texts among `items`.
pub open spec fn texts_in(items: Seq<JsonView>) -> Seq<Seq<char>>
    decreases items.len(),
{
    if items.len() == 0 {
        Seq::empty()
    } else {
        let others = texts_in(items.drop_last());
        match items.last().str() {
            Some(text) => others.push(text),
            None => others,
        }
    }
}

/// The kind of dependency that a field says; a normal one where it says none.
pub open spec fn kind_of(value: Option<JsonView>) -> Kind {
    match value {
        Some(v) => if v.str() == Some("dev"@) {
            Kind::Dev
        } else if v.str() == Some("build"@) {
            Kind::Build
        } else {
            Kind::Normal
        },
        None => Kind::Normal,
    }
}

/// Whether one of the crate types `items` makes a library.
pub open spec fn any_lib(items: Seq<JsonView>) -> bool {
    exists|i: int|
        0 <= i < items.len() && ((#[trigger] items[i]).str() == Some("lib"@) || items[i].str()
            == Some("rlib"@) || items[i].str() == Some("proc-macro"@))
}

pub open spec fn target_of(t: JsonView) -> Option<TargetView> {
    match (text_at(t, "name"@), t.get("kind"@)) {
        (Some(name), Some(kind)) => Some(TargetView { name, is_lib: any_lib(kind.arr()) }),
        _ => None,
    }
}

pub open spec fn dep_of(d: JsonView) -> Option<DepView> {
    match text_at(d, "name"@) {
        Some(name) => Some(
            DepView {
                name,
                rename: text_at(d, "rename"@),
                kind: kind_of(d.get("kind"@)),
                target: text_at(d, "target"@),
            },
        ),
        None => None,
    }
}

pub open spec fn edge_of(d: JsonView) -> Option<EdgeView> {
    match (text_at(d, "name"@), text_at(d, "pkg"@), d.get("dep_kinds"@)) {
        (Some(name), Some(pkg), Some(kinds)) => Some(
            EdgeView {
                name,
                pkg,
                kinds: kinds.arr().map_values(|k: JsonView| kind_of(k.get("kind"@))),
            },
        ),
        _ => None,
    }
}

/// The results of reading each of `items`, without those that cannot be read.
pub open spec fn read_each<T>(items: Seq<JsonView>, read: spec_fn(JsonView) -> Option<T>) -> Seq<T>
    decreases items.len(),
{
    if items.len() == 0 {
        Seq::empty()
    } else {
        let others = read_each(items.drop_last(), read);
        match read(items.last()) {
            Some(x) => others.push(x),
            None => others,
        }
    }
}

/// The field of a field.
pub open spec fn get_in(v: Option<JsonView>, key: Seq<char>) -> Option<JsonView> {
    match v {
        Some(v) => v.get(key),
        None => None,
    }
}

/// The dependencies that a package says not to report.
pub open spec fn ignored_by(p: JsonView) -> Seq<Seq<char>> {
    match get_in(get_in(p.get("metadata"@), "cargo-disk"@), "ignore"@) {
        Some(list) => texts_in(list.arr()),
        None => Seq::empty(),
    }
}

pub open spec fn package_of(p: JsonView) -> Option<PackageView> {
    match (
        text_at(p, "id"@),
        text_at(p, "name"@),
        text_at(p, "manifest_path"@),
        p.get("targets"@),
        p.get("dependencies"@),
    ) {
        (Some(id), Some(name), Some(manifest_path), Some(targets), Some(deps)) => Some(
            PackageView {
                id,
                name,
                manifest_path,
                targets: read_each(targets.arr(), |t: JsonView| target_of(t)),
                deps: read_each(deps.arr(), |d: JsonView| dep_of(d)),
                ignore: ignored_by(p),
            },
        ),
        _ => None,
    }
}

pub open spec fn node_of(n: JsonView) -> Option<NodeView> {
    match (text_at(n, "id"@), n.get("deps"@)) {
        (Some(id), Some(deps)) => Some(
            NodeView { id, deps: read_each(deps.arr(), |d: JsonView| edge_of(d)) },
        ),
        _ => None,
    }
}

/// What the document `doc` says of a project; none where it lacks the target
/// directory or the packages. Packages, targets, dependencies and nodes that lack
/// what they need are passed over.
pub open spec fn metadata_of(doc: JsonView) -> Option<MetadataView> {
    match (text_at(doc, "target_directory"@), doc.get("packages"@)) {
        (Some(target_dir), Some(packages)) => Some(
            MetadataView {
                target_dir,
                build_dir: match text_at(doc, "build_directory"@) {
                    Some(build_dir) => build_dir,
                    None => target_dir,
                },
                packages: read_each(packages.arr(), |p: JsonView| package_of(p)),
                members: texts_in(items_at(doc, "workspace_members"@)),
                nodes: match get_in(doc.get("resolve"@), "nodes"@) {
                    Some(nodes) => read_each(nodes.arr(), |n: JsonView| node_of(n)),
                    None => Seq::empty(),
                },
            },
        ),
        _ => None,
    }
}

// ---------------------------------------------------------------- reading a document
/// Where Cargo names no build directory, it is the target directory.
pub proof fn lemma_build_dir_falls_back(doc: JsonView)
    requires
        text_at(doc, "build_directory"@) is None,
    ensures
        metadata_of(doc) matches Some(meta) ==> meta.build_dir == meta.target_dir,
{
}

fn read_text(v: &Json, key: &str) -> (text: Option<String>)
    ensures
        opt_text(text) == text_at(v@, key@),
{
    match v.get(key) {
        Some(field) => match field.str() {
            Some(text) => Some(text.to_owned()),
            None => None,
        },
        None => None,
    }
}

fn read_texts(items: &[Json]) -> (texts: Vec<String>)
    ensures
        views(texts@) == texts_in(views(items@)),
{
    let mut texts: Vec<String> = Vec::new();
    let ghost all = views(items@);
    let mut i: usize = 0;
    assert(views(texts@) == texts_in(all.take(0)));
    while i < items.len()
        invariant
            i <= items@.len(),
            all == views(items@),
            views(texts@) == texts_in(all.take(i as int)),
        decreases items@.len() - i,
    {
        assert(all.take(i + 1).drop_last() == all.take(i as int));
        assert(all.take(i + 1).last() == items@[i as int]@);
        let ghost before = texts@;
        if let Some(text) = items[i].str() {
            texts.push(text.to_owned());
            assert(views(texts@) == views(before).push(text@));
        }
        i += 1;
    }
    assert(all.take(i as int) == all);
    texts
}

fn read_texts_at(field: Option<&Json>) -> (texts: Vec<String>)
    ensures
        views(texts@) == match field {
            Some(v) => texts_in(v@.arr()),
            None => Seq::<Seq<char>>::empty(),
        },
{
    match field {
        Some(v) => read_texts(v.arr()),
        None => {
            let none: Vec<String> = Vec::new();
            assert(views(none@) == Seq::<Seq<char>>::empty());
            none
        },
    }
}

impl Kind {
    /// The kind of dependency that a field says; a normal one where it says none.
    pub fn from_json(value: Option<&Json>) -> (kind: Kind)
        ensures
            kind == kind_of(
                match value {
                    Some(v) => Some(v@),
                    None => None,
                },
            ),
    {
        match value {
            Some(v) => match v.str() {
                Some(text) => if same(text, "dev") {
                    Kind::Dev
                } else if same(text, "build") {
                    Kind::Build
                } else {
                    Kind::Normal
                },
                None => Kind::Normal,
            },
            None => Kind::Normal,
        }
    }
}

fn read_is_lib(items: &[Json]) -> (yes: bool)
    ensures
        yes == any_lib(views(items@)),
{
    let ghost all = views(items@);
    let mut i: usize = 0;
    while i < items.len()
        invariant
            i <= items@.len(),
            all == views(items@),
            forall|k: int|
                0 <= k < i ==> (#[trigger] all[k]).str() != Some("lib"@) && all[k].str() != Some(
                    "rlib"@,
                ) && all[k].str() != Some("proc-macro"@),
        decreases items@.len() - i,
    {
        assert(all[i as int] == items@[i as int]@);
        if let Some(text) = items[i].str() {
            if same(text, "lib") || same(text, "rlib") || same(text, "proc-macro") {
                return true;
            }
        }
        i += 1;
    }
    false
}

fn read_target(t: &Json) -> (target: Option<Target>)
    ensures
        target matches Some(x) ==> target_of(t@) == Some(x@),
        target is None ==> target_of(t@) is None,
{
    match (read_text(t, "name"), t.get("kind")) {
        (Some(name), Some(kind)) => Some(Target { name, is_lib: read_is_lib(kind.arr()) }),
        _ => None,
    }
}

fn read_targets(items: &[Json]) -> (targets: Vec<Target>)
    ensures
        views(targets@) == read_each(views(items@), |t: JsonView| target_of(t)),
{
    let mut targets: Vec<Target> = Vec::new();
    let ghost all = views(items@);
    let ghost read = |t: JsonView| target_of(t);
    let mut i: usize = 0;
    assert(views(targets@) == read_each(all.take(0), read));
    while i < items.len()
        invariant
            i <= items@.len(),
            all == views(items@),
            read == (|t: JsonView| target_of(t)),
            views(targets@) == read_each(all.take(i as int), read),
        decreases items@.len() - i,
    {
        assert(all.take(i + 1).drop_last() == all.take(i as int));
        assert(all.take(i + 1).last() == items@[i as int]@);
        let ghost before = targets@;
        if let Some(target) = read_target(&items[i]) {
            let ghost x = target@;
            targets.push(target);
            assert(views(targets@) == views(before).push(x));
        }
        i += 1;
    }
    assert(all.take(i as int) == all);
    targets
}

fn read_dep(d: &Json) -> (dep: Option<Dep>)
    ensures
        dep matches Some(x) ==> dep_of(d@) == Some(x@),
        dep is None ==> dep_of(d@) is None,
{
    match read_text(d, "name") {
        Some(name) => Some(
            Dep {
                name,
                rename: read_text(d, "rename"),
                kind: Kind::from_json(d.get("kind")),
                target: read_text(d, "target"),
            },
        ),
        None => None,
    }
}

fn read_deps(items: &[Json]) -> (deps: Vec<Dep>)
    ensures
        views(deps@) == read_each(views(items@), |d: JsonView| dep_of(d)),
{
    let mut deps: Vec<Dep> = Vec::new();
    let ghost all = views(items@);
    let ghost read = |d: JsonView| dep_of(d);
    let mut i: usize = 0;
    assert(views(deps@) == read_each(all.take(0), read));
    while i < items.len()
        invariant
            i <= items@.len(),
            all == views(items@),
            read == (|d: JsonView| dep_of(d)),
            views(deps@) == read_each(all.take(i as int), read),
        decreases items@.len() - i,
    {
        assert(all.take(i + 1).drop_last() == all.take(i as int));
        assert(all.take(i + 1).last() == items@[i as int]@);
        let ghost before = deps@;
        if let Some(dep) = read_dep(&items[i]) {
            let ghost x = dep@;
            deps.push(dep);
            assert(views(deps@) == views(before).push(x));
        }
        i += 1;
    }
    assert(all.take(i as int) == all);
    deps
}

fn read_package(p: &Json) -> (package: Option<Package>)
    ensures
        package matches Some(x) ==> package_of(p@) == Some(x@),
        package is None ==> package_of(p@) is None,
{
    match (
        read_text(p, "id"),
        read_text(p, "name"),
        read_text(p, "manifest_path"),
        p.get("targets"),
        p.get("dependencies"),
    ) {
        (Some(id), Some(name), Some(manifest_path), Some(targets), Some(deps)) => {
            let tool = match p.get("metadata") {
                Some(m) => m.get("cargo-disk"),
                None => None,
            };
            let list = match tool {
                Some(m) => m.get("ignore"),
                None => None,
            };
            let ignore = read_texts_at(list);
            assert(views(ignore@) == ignored_by(p@));
            Some(
                Package {
                    id,
                    name,
                    manifest_path,
                    targets: read_targets(targets.arr()),
                    deps: read_deps(deps.arr()),
                    ignore,
                },
            )
        },
        _ => None,
    }
}

fn read_packages(items: &[Json]) -> (packages: Vec<Package>)
    ensures
        views(packages@) == read_each(views(items@), |p: JsonView| package_of(p)),
{
    let mut packages: Vec<Package> = Vec::new();
    let ghost all = views(items@);
    let ghost read = |p: JsonView| package_of(p);
    let mut i: usize = 0;
    assert(views(packages@) == read_each(all.take(0), read));
    while i < items.len()
        invariant
            i <= items@.len(),
            all == views(items@),
            read == (|p: JsonView| package_of(p)),
            views(packages@) == read_each(all.take(i as int), read),
        decreases items@.len() - i,
    {
        assert(all.take(i + 1).drop_last() == all.take(i as int));
        assert(all.take(i + 1).last() == items@[i as int]@);
        let ghost before = packages@;
        if let Some(package) = read_package(&items[i]) {
            let ghost x = package@;
            packages.push(package);
            assert(views(packages@) == views(before).push(x));
        }
        i += 1;
    }
    assert(all.take(i as int) == all);
    packages
}

fn read_kinds(items: &[Json]) -> (kinds: Vec<Kind>)
    ensures
        kinds@ == views(items@).map_values(|k: JsonView| kind_of(k.get("kind"@))),
{
    let mut kinds: Vec<Kind> = Vec::new();
    let ghost all = views(items@).map_values(|k: JsonView| kind_of(k.get("kind"@)));
    let mut i: usize = 0;
    while i < items.len()
        invariant
            i <= items@.len(),
            all == views(items@).map_values(|k: JsonView| kind_of(k.get("kind"@))),
            kinds@ == all.take(i as int),
        decreases items@.len() - i,
    {
        kinds.push(Kind::from_json(items[i].get("kind")));
        assert(all.take(i + 1) == all.take(i as int).push(all[i as int]));
        i += 1;
    }
    assert(all.take(i as int) == all);
    kinds
}

fn read_edge(d: &Json) -> (edge: Option<NodeDep>)
    ensures
        edge matches Some(x) ==> edge_of(d@) == Some(x@),
        edge is None ==> edge_of(d@) is None,
{
    match (read_text(d, "name"), read_text(d, "pkg"), d.get("dep_kinds")) {
        (Some(name), Some(pkg), Some(kinds)) => Some(
            NodeDep { name, pkg, kinds: read_kinds(kinds.arr()) },
        ),
        _ => None,
    }
}

fn read_edges(items: &[Json]) -> (edges: Vec<NodeDep>)
    ensures
        views(edges@) == read_each(views(items@), |d: JsonView| edge_of(d)),
{
    let mut edges: Vec<NodeDep> = Vec::new();
    let ghost all = views(items@);
    let ghost read = |d: JsonView| edge_of(d);
    let mut i: usize = 0;
    assert(views(edges@) == read_each(all.take(0), read));
    while i < items.len()
        invariant
            i <= items@.len(),
            all == views(items@),
            read == (|d: JsonView| edge_of(d)),
            views(edges@) == read_each(all.take(i as int), read),
        decreases items@.len() - i,
    {
        assert(all.take(i + 1).drop_last() == all.take(i as int));
        assert(all.take(i + 1).last() == items@[i as int]@);
        let ghost before = edges@;
        if let Some(edge) = read_edge(&items[i]) {
            let ghost x = edge@;
            edges.push(edge);
            assert(views(edges@) == views(before).push(x));
        }
        i += 1;
    }
    assert(all.take(i as int) == all);
    edges
}

fn read_nodes(items: &[Json]) -> (nodes: Vec<Node>)
    ensures
        views(nodes@) == read_each(views(items@), |n: JsonView| node_of(n)),
{
    let mut nodes: Vec<Node> = Vec::new();
    let ghost all = views(items@);
    let ghost read = |n: JsonView| node_of(n);
    let mut i: usize = 0;
    assert(views(nodes@) == read_each(all.take(0), read));
    while i < items.len()
        invariant
            i <= items@.len(),
            all == views(items@),
            read == (|n: JsonView| node_of(n)),
            views(nodes@) == read_each(all.take(i as int), read),
        decreases items@.len() - i,
    {
        assert(all.take(i + 1).drop_last() == all.take(i as int));
        assert(all.take(i + 1).last() == items@[i as int]@);
        let ghost before = nodes@;
        if let (Some(id), Some(deps)) = (read_text(&items[i], "id"), items[i].get("deps")) {
            let node = Node { id, deps: read_edges(deps.arr()) };
            let ghost x = node@;
            nodes.push(node);
            assert(node_of(items@[i as int]@) == Some(x));
            assert(views(nodes@) == views(before).push(x));
        }
        i += 1;
    }
    assert(all.take(i as int) == all);
    nodes
}

/// What the document `doc` says of a project; none where it lacks the target
/// directory or the packages.
pub fn from_json(doc: &Json) -> (meta: Option<Metadata>)
    ensures
        meta matches Some(m) ==> metadata_of(doc@) == Some(m@),
        meta is None ==> metadata_of(doc@) is None,
{
    let target_dir = match read_text(doc, "target_directory") {
        Some(target_dir) => target_dir,
        None => {
            return None;
        },
    };
    let build_dir = match read_text(doc, "build_directory") {
        Some(build_dir) => build_dir,
        None => target_dir.clone(),
    };
    let packages = match doc.get("packages") {
        Some(packages) => read_packages(packages.arr()),
        None => {
            return None;
        },
    };
    let listed = match doc.get("resolve") {
        Some(resolve) => resolve.get("nodes"),
        None => None,
    };
    let nodes = match listed {
        Some(nodes) => read_nodes(nodes.arr()),
        None => {
            let none: Vec<Node> = Vec::new();
            assert(views(none@) == Seq::<NodeView>::empty());
            none
        },
    };
    let members = read_texts_at(doc.get("workspace_members"));
    assert(texts_in(Seq::<JsonView>::empty()) == Seq::<Seq<char>>::empty());
    let meta = Metadata { target_dir, build_dir, packages, members, nodes };
    Some(meta)
}

// ---------------------------------------------------------------- asking Cargo
/// What became of a run of `cargo metadata`.
pub enum CargoOutput {
    /// It could not be started; the reason.
    NotRun(String),
    /// It failed; what it wrote to its error stream.
    Failed(String),
    /// It succeeded; what it wrote, if that is text.
    Done(Option<String>),
}

/// The arguments that ask Cargo for the metadata of a project.
pub open spec fn arguments(mode: Mode) -> Seq<Seq<char>> {
    seq!["metadata"@, "--format-version"@, "1"@] + match mode {
        Mode::NoDeps => seq!["--no-deps"@, "--offline"@],
        Mode::Offline => seq!["--frozen"@],
        Mode::Online => seq!["--locked"@],
    }
}

/// The arguments that ask Cargo for the metadata of a project.
pub fn metadata_args(mode: Mode) -> (args: Vec<&'static str>)
    ensures
        views(args@) == arguments(mode),
{
    let mut args: Vec<&'static str> = Vec::new();
    args.push("metadata");
    args.push("--format-version");
    args.push("1");
    match mode {
        Mode::NoDeps => {
            args.push("--no-deps");
            args.push("--offline");
        },
        Mode::Offline => {
            args.push("--frozen");
        },
        Mode::Online => {
            args.push("--locked");
        },
    }
    assert(views(args@) == arguments(mode));
    args
}

/// What a run of `cargo metadata` says of a project, or why it says nothing: it could
/// not be run; it failed, and the first line of its complaint; its output is no text,
/// no document, or lacks what is needed.
pub open spec fn load_result(output: CargoOutput) -> Result<MetadataView, Seq<char>> {
    match output {
        CargoOutput::NotRun(why) => Err("could not run cargo: "@ + why@),
        CargoOutput::Failed(stderr) => if lines(stderr@).len() > 0 {
            Err(lines(stderr@)[0])
        } else {
            Err("cargo metadata failed"@)
        },
        CargoOutput::Done(None) => Err("cargo metadata: not UTF-8"@),
        CargoOutput::Done(Some(stdout)) => match crate::json::document(stdout@) {
            Some(doc) => match metadata_of(doc) {
                Some(meta) => Ok(meta),
                None => Err("cargo metadata: unexpected format"@),
            },
            None => Err("cargo metadata: unreadable output"@),
        },
    }
}

/// What a run of `cargo metadata` says of a project, or why it says nothing.
pub fn load(output: CargoOutput) -> (meta: Result<Metadata, String>)
    ensures
        meta matches Ok(m) ==> load_result(output) == Ok::<MetadataView, Seq<char>>(m@),
        meta matches Err(e) ==> load_result(output) == Err::<MetadataView, Seq<char>>(e@),
{
    match output {
        CargoOutput::NotRun(why) => {
            let mut text = "could not run cargo: ".to_owned();
            text.append(why.as_str());
            Err(text)
        },
        CargoOutput::Failed(stderr) => {
            let chars = chars_of(stderr.as_str());
            let all = split_lines(chars.as_slice());
            assert(views(all@).len() == all@.len());
            if all.len() > 0 {
                assert(views(all@)[0] == all@[0]@);
                Err(text_of(all[0]))
            } else {
                Err("cargo metadata failed".to_owned())
            }
        },
        CargoOutput::Done(stdout) => match stdout {
            None => Err("cargo metadata: not UTF-8".to_owned()),
            Some(stdout) => match parse(stdout.as_str()) {
                None => Err("cargo metadata: unreadable output".to_owned()),
                Some(doc) => match from_json(&doc) {
                    None => Err("cargo metadata: unexpected format".to_owned()),
                    Some(meta) => Ok(meta),
                },
            },
        },
    }
}

// ---------------------------------------------------------------- looking things up
/// The first position of `id` in `ids`.
pub open spec fn first_index(ids: Seq<Seq<char>>, id: Seq<char>) -> Option<int>
    decreases ids.len(),
{
    if ids.len() == 0 {
        None
    } else {
        match first_index(ids.drop_last(), id) {
            Some(i) => Some(i),
            None => if ids.last() == id {
                Some(ids.len() - 1)
            } else {
                None
            },
        }
    }
}

/// A position that `first_index` gives holds the id, and no earlier one does.
pub proof fn lemma_first_index(ids: Seq<Seq<char>>, id: Seq<char>)
    ensures
        first_index(ids, id) matches Some(i) ==> {
            &&& 0 <= i < ids.len()
            &&& ids[i] == id
            &&& forall|k: int| 0 <= k < i ==> ids[k] != id
        },
        first_index(ids, id) is None ==> !ids.contains(id),
    decreases ids.len(),
{
    if ids.len() > 0 {
        let rest = ids.drop_last();
        lemma_first_index(rest, id);
        assert(forall|k: int| 0 <= k < rest.len() ==> rest[k] == ids[k]);
        if first_index(rest, id) is None {
            assert forall|k: int| 0 <= k < rest.len() implies ids[k] != id by {
                assert(rest.contains(rest[k]));
            }
        }
    }
}

impl MetadataView {
    /// The first package with the id `id`.
    pub open spec fn package(self, id: Seq<char>) -> Option<PackageView> {
        match first_index(self.packages.map_values(|p: PackageView| p.id), id) {
            Some(i) => Some(self.packages[i]),
            None => None,
        }
    }

    /// The first node with the id `id`.
    pub open spec fn node(self, id: Seq<char>) -> Option<NodeView> {
        match first_index(self.nodes.map_values(|n: NodeView| n.id), id) {
            Some(i) => Some(self.nodes[i]),
            None => None,
        }
    }

    /// Every name that an artifact could carry, as rustc names files.
    pub open spec fn artifact_names(self) -> Seq<Seq<char>> {
        (package_names(self.packages) + edge_names(self.nodes)).map_values(
            |name: Seq<char>| underscored(name),
        )
    }
}

/// The names of `packages`, each followed by the names of its targets.
pub open spec fn package_names(packages: Seq<PackageView>) -> Seq<Seq<char>>
    decreases packages.len(),
{
    if packages.len() == 0 {
        Seq::empty()
    } else {
        package_names(packages.drop_last()).push(packages.last().name)
            + packages.last().targets.map_values(|t: TargetView| t.name)
    }
}

/// The names that the dependencies of `nodes` go by.
pub open spec fn edge_names(nodes: Seq<NodeView>) -> Seq<Seq<char>>
    decreases nodes.len(),
{
    if nodes.len() == 0 {
        Seq::empty()
    } else {
        edge_names(nodes.drop_last()) + nodes.last().deps.map_values(|d: EdgeView| d.name)
    }
}

impl PackageView {
    /// The names of the library targets, as rustc names files.
    pub open spec fn lib_names(self) -> Seq<Seq<char>> {
        self.targets.filter(|t: TargetView| t.is_lib).map_values(
            |t: TargetView| underscored(t.name),
        )
    }

    /// The names that the package's artifacts appear under: in order, each once.
    pub open spec fn artifact_names(self) -> Seq<Seq<char>> {
        sorted_once(
            self.lib_names().push(underscored(self.name)),
            |a: Seq<char>, b: Seq<char>| <String as Ranked>::ranks_before(a, b),
        )
    }
}

/// Every name of the metadata is one that rustc may give a file: without hyphens.
pub proof fn lemma_artifact_names(meta: MetadataView, i: int)
    requires
        0 <= i < meta.artifact_names().len(),
    ensures
        !meta.artifact_names()[i].contains('-'),
{
    lemma_underscored((package_names(meta.packages) + edge_names(meta.nodes))[i]);
}

/// The artifacts of a package go by its own name and those of its libraries, as rustc
/// names files.
pub proof fn lemma_package_names(package: PackageView)
    ensures
        forall|name: Seq<char>| #[trigger]
            package.artifact_names().contains(name) <==> package.lib_names().contains(name) || name
                == underscored(package.name),
{
    let names = package.lib_names().push(underscored(package.name));
    lemma_texts_are_ranked();
    lemma_sorted_once::<String>(names);
    assert forall|name: Seq<char>| #[trigger] package.artifact_names().contains(name)
        <==> package.lib_names().contains(name) || name == underscored(package.name) by {
        let libs = package.lib_names();
        if libs.contains(name) {
            let k = choose|k: int| 0 <= k < libs.len() && libs[k] == name;
            assert(names[k] == name);
        }
        assert(names[libs.len() as int] == underscored(package.name));
        if names.contains(name) {
            let k = choose|k: int| 0 <= k < names.len() && names[k] == name;
            if k < libs.len() {
                assert(libs[k] == name);
            }
        }
    }
}

fn push_underscored(names: &mut Vec<String>, name: &str)
    ensures
        views(final(names)@) == views(old(names)@).push(underscored(name@)),
{
    let chars = chars_of(name);
    let text = underscore(chars.as_slice());
    let ghost t = text@;
    names.push(text);
    assert(views(names@) == views(old(names)@).push(t));
}

impl Metadata {
    /// The package with the id `id`.
    pub fn package(&self, id: &str) -> (package: Option<&Package>)
        ensures
            package matches Some(p) ==> self@.package(id@) == Some(p@),
            package is None ==> self@.package(id@) is None,
    {
        let ghost ids = self@.packages.map_values(|p: PackageView| p.id);
        let mut i: usize = 0;
        while i < self.packages.len()
            invariant
                i <= self.packages@.len(),
                ids == self@.packages.map_values(|p: PackageView| p.id),
                forall|k: int| 0 <= k < i ==> #[trigger] ids[k] != id@,
            decreases self.packages@.len() - i,
        {
            assert(ids[i as int] == self.packages@[i as int].id@);
            if same(self.packages[i].id.as_str(), id) {
                proof {
                    lemma_first_index(ids, id@);
                    assert(ids.contains(ids[i as int]));
                }
                return Some(&self.packages[i]);
            }
            i += 1;
        }
        proof {
            lemma_first_index(ids, id@);
        }
        None
    }

    /// The node with the id `id`.
    pub fn node(&self, id: &str) -> (node: Option<&Node>)
        ensures
            node matches Some(n) ==> self@.node(id@) == Some(n@),
            node is None ==> self@.node(id@) is None,
    {
        let ghost ids = self@.nodes.map_values(|n: NodeView| n.id);
        let mut i: usize = 0;
        while i < self.nodes.len()
            invariant
                i <= self.nodes@.len(),
                ids == self@.nodes.map_values(|n: NodeView| n.id),
                forall|k: int| 0 <= k < i ==> #[trigger] ids[k] != id@,
            decreases self.nodes@.len() - i,
        {
            assert(ids[i as int] == self.nodes@[i as int].id@);
            if same(self.nodes[i].id.as_str(), id) {
                proof {
                    lemma_first_index(ids, id@);
                    assert(ids.contains(ids[i as int]));
                }
                return Some(&self.nodes[i]);
            }
            i += 1;
        }
        proof {
            lemma_first_index(ids, id@);
        }
        None
    }

    /// Every name an artifact in target/ could legitimately carry: package
    /// names and target names (they differ: md-5 builds md5), normalised the
    /// way rustc names files.
    pub fn artifact_names(&self) -> (names: Vec<String>)
        ensures
            views(names@) == self@.artifact_names(),
    {
        let ghost flat = |name: Seq<char>| underscored(name);
        let mut names: Vec<String> = Vec::new();
        let mut i: usize = 0;
        assert(views(names@) == package_names(self@.packages.take(0)).map_values(flat));
        while i < self.packages.len()
            invariant
                i <= self.packages@.len(),
                flat == (|name: Seq<char>| underscored(name)),
                views(names@) == package_names(self@.packages.take(i as int)).map_values(flat),
            decreases self.packages@.len() - i,
        {
            let package = &self.packages[i];
            let ghost done = package_names(self@.packages.take(i as int));
            let ghost own = package@.targets.map_values(|t: TargetView| t.name);
            proof {
                assert(self@.packages.take(i + 1).drop_last() == self@.packages.take(i as int));
                assert(self@.packages.take(i + 1).last() == package@);
            }
            push_underscored(&mut names, package.name.as_str());
            let mut k: usize = 0;
            assert(views(names@) == (done.push(package@.name) + own.take(0)).map_values(flat));
            while k < package.targets.len()
                invariant
                    k <= package.targets@.len(),
                    flat == (|name: Seq<char>| underscored(name)),
                    own == package@.targets.map_values(|t: TargetView| t.name),
                    views(names@) == (done.push(package@.name) + own.take(k as int)).map_values(
                        flat,
                    ),
                decreases package.targets@.len() - k,
            {
                push_underscored(&mut names, package.targets[k].name.as_str());
                assert(own[k as int] == package.targets@[k as int].name@);
                assert((done.push(package@.name) + own.take(k + 1)).map_values(flat) == (done.push(
                    package@.name,
                ) + own.take(k as int)).map_values(flat).push(underscored(own[k as int])));
                k += 1;
            }
            assert(own.take(k as int) == own);
            i += 1;
        }
        assert(self@.packages.take(i as int) == self@.packages);
        let ghost first = package_names(self@.packages);
        let mut j: usize = 0;
        assert(first + edge_names(self@.nodes.take(0)) == first);
        while j < self.nodes.len()
            invariant
                j <= self.nodes@.len(),
                flat == (|name: Seq<char>| underscored(name)),
                views(names@) == (first + edge_names(self@.nodes.take(j as int))).map_values(flat),
            decreases self.nodes@.len() - j,
        {
            let node = &self.nodes[j];
            let ghost done = first + edge_names(self@.nodes.take(j as int));
            let ghost own = node@.deps.map_values(|d: EdgeView| d.name);
            proof {
                assert(self@.nodes.take(j + 1).drop_last() == self@.nodes.take(j as int));
                assert(self@.nodes.take(j + 1).last() == node@);
            }
            let mut k: usize = 0;
            assert(done + own.take(0) == done);
            while k < node.deps.len()
                invariant
                    k <= node.deps@.len(),
                    flat == (|name: Seq<char>| underscored(name)),
                    own == node@.deps.map_values(|d: EdgeView| d.name),
                    views(names@) == (done + own.take(k as int)).map_values(flat),
                decreases node.deps@.len() - k,
            {
                push_underscored(&mut names, node.deps[k].name.as_str());
                assert(own[k as int] == node.deps@[k as int].name@);
                assert((done + own.take(k + 1)).map_values(flat) == (done + own.take(
                    k as int,
                )).map_values(flat).push(underscored(own[k as int])));
                k += 1;
            }
            assert(own.take(k as int) == own);
            assert(first + edge_names(self@.nodes.take(j + 1)) == done + own);
            j += 1;
        }
        assert(self@.nodes.take(j as int) == self@.nodes);
        names
    }
}

impl Package {
    /// Names this package's artifacts appear under in target/: its lib
    /// target, and its package name (build-script directories use that).
    pub fn artifact_names(&self) -> (names: Vec<String>)
        ensures
            views(names@) == self@.artifact_names(),
    {
        let ghost is_lib = |t: TargetView| t.is_lib;
        let ghost name_of = |t: TargetView| underscored(t.name);
        let mut names: Vec<String> = Vec::new();
        let mut i: usize = 0;
        assert(self@.targets.take(0).filter(is_lib) == Seq::<TargetView>::empty()) by {
            reveal(Seq::filter);
        }
        assert(views(names@) == self@.targets.take(0).filter(is_lib).map_values(name_of));
        while i < self.targets.len()
            invariant
                i <= self.targets@.len(),
                is_lib == (|t: TargetView| t.is_lib),
                name_of == (|t: TargetView| underscored(t.name)),
                views(names@) == self@.targets.take(i as int).filter(is_lib).map_values(name_of),
            decreases self.targets@.len() - i,
        {
            let ghost now = self@.targets.take(i as int);
            let ghost next = self@.targets.take(i + 1);
            proof {
                reveal(Seq::filter);
                assert(next.drop_last() == now);
                assert(next.last() == self.targets@[i as int]@);
            }
            if self.targets[i].is_lib {
                push_underscored(&mut names, self.targets[i].name.as_str());
                assert(next.filter(is_lib).map_values(name_of) == now.filter(is_lib).map_values(
                    name_of,
                ).push(underscored(next.last().name)));
            }
            i += 1;
        }
        assert(self@.targets.take(i as int) == self@.targets);
        push_underscored(&mut names, self.name.as_str());
        sort_once(&mut names);
        names
    }
}

} // verus!
