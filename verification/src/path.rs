//! File paths as lists of components.

use crate::order::{lemma_text_total, lemma_text_transitive, precedes, text_before};
use crate::text::{same, views};
use vstd::prelude::*;
use vstd::slice::slice_subrange;

verus! {

/// One component of a path, as `std::path::Component` has it.
#[derive(Debug, PartialEq, Eq)]
pub enum Component {
    Prefix(String),
    RootDir,
    CurDir,
    ParentDir,
    Normal(String),
}

/// What a [`Component`] holds.
#[verifier::ext_equal]
pub enum Part {
    Prefix(Seq<char>),
    RootDir,
    CurDir,
    ParentDir,
    Normal(Seq<char>),
}

impl View for Component {
    type V = Part;

    open spec fn view(&self) -> Part {
        match self {
            Component::Prefix(text) => Part::Prefix(text@),
            Component::RootDir => Part::RootDir,
            Component::CurDir => Part::CurDir,
            Component::ParentDir => Part::ParentDir,
            Component::Normal(text) => Part::Normal(text@),
        }
    }
}

/// The text of a component.
pub open spec fn part_text(part: Part) -> Seq<char> {
    match part {
        Part::Prefix(text) => text,
        Part::RootDir => "/"@,
        Part::CurDir => "."@,
        Part::ParentDir => ".."@,
        Part::Normal(text) => text,
    }
}

impl Component {
    /// The text of this component.
    pub fn text(&self) -> (text: &str)
        ensures
            text@ == part_text(self@),
    {
        match self {
            Component::Prefix(text) => text.as_str(),
            Component::RootDir => "/",
            Component::CurDir => ".",
            Component::ParentDir => "..",
            Component::Normal(text) => text.as_str(),
        }
    }

    /// Whether `self` and `other` are the same component.
    pub fn is(&self, other: &Component) -> (yes: bool)
        ensures
            yes == (self@ == other@),
    {
        match (self, other) {
            (Component::Prefix(a), Component::Prefix(b)) => same(a.as_str(), b.as_str()),
            (Component::RootDir, Component::RootDir) => true,
            (Component::CurDir, Component::CurDir) => true,
            (Component::ParentDir, Component::ParentDir) => true,
            (Component::Normal(a), Component::Normal(b)) => same(a.as_str(), b.as_str()),
            _ => false,
        }
    }
}

impl Clone for Component {
    fn clone(&self) -> (copy: Component)
        ensures
            copy@ == self@,
    {
        match self {
            Component::Prefix(text) => Component::Prefix(text.clone()),
            Component::RootDir => Component::RootDir,
            Component::CurDir => Component::CurDir,
            Component::ParentDir => Component::ParentDir,
            Component::Normal(text) => Component::Normal(text.clone()),
        }
    }
}

/// A path, as the list of its components.
#[derive(Debug, PartialEq, Eq)]
pub struct FilePath {
    pub parts: Vec<Component>,
}

impl View for FilePath {
    type V = Seq<Part>;

    open spec fn view(&self) -> Seq<Part> {
        views(self.parts@)
    }
}

impl Clone for FilePath {
    fn clone(&self) -> (copy: FilePath)
        ensures
            copy@ == self@,
    {
        let mut parts: Vec<Component> = Vec::new();
        let mut i: usize = 0;
        while i < self.parts.len()
            invariant
                i <= self.parts@.len(),
                views(parts@) == self@.take(i as int),
            decreases self.parts@.len() - i,
        {
            let ghost before = parts@;
            let part = self.parts[i].clone();
            let ghost p = part@;
            parts.push(part);
            assert(views(parts@) == views(before).push(p));
            assert(self@.take(i + 1) == self@.take(i as int).push(p));
            i += 1;
        }
        assert(self@.take(i as int) == self@);
        FilePath { parts }
    }
}

/// What follows `dir` in `path`, where `path` is `dir` or lies in it.
pub open spec fn below(path: Seq<Part>, dir: Seq<Part>) -> Option<Seq<Part>> {
    if dir.is_prefix_of(path) {
        Some(path.skip(dir.len() as int))
    } else {
        None
    }
}

/// What follows in `path` the closest of the directories that hold it.
pub open spec fn below_closest(path: Seq<Part>, dirs: Seq<Seq<Part>>) -> Option<Seq<Part>>
    decreases dirs.len(),
{
    if dirs.len() == 0 {
        None
    } else {
        let others = below_closest(path, dirs.drop_last());
        match below(path, dirs.last()) {
            Some(rel) => match others {
                Some(best) => if best.len() <= rel.len() {
                    Some(best)
                } else {
                    Some(rel)
                },
                None => Some(rel),
            },
            None => others,
        }
    }
}

/// A file is taken relative to the directory that holds it most closely: some
/// directory gives what is returned, none that holds the file gives anything
/// shorter, and nothing is returned only where no directory holds the file.
pub proof fn lemma_below_closest(path: Seq<Part>, dirs: Seq<Seq<Part>>)
    ensures
        below_closest(path, dirs) matches Some(rel) ==> exists|i: int|
            #![trigger dirs[i]]
            0 <= i < dirs.len() && below(path, dirs[i]) == Some(rel),
        forall|i: int|
            #![trigger dirs[i]]
            0 <= i < dirs.len() ==> (below(path, dirs[i]) matches Some(other) ==> {
                below_closest(path, dirs) matches Some(rel) && rel.len() <= other.len()
            }),
    decreases dirs.len(),
{
    if dirs.len() > 0 {
        let rest = dirs.drop_last();
        lemma_below_closest(path, rest);
        assert forall|i: int|
            #![trigger dirs[i]]
            0 <= i < dirs.len() implies (below(path, dirs[i]) matches Some(other) ==> {
            below_closest(path, dirs) matches Some(rel) && rel.len() <= other.len()
        }) by {
            if i < rest.len() {
                assert(rest[i] == dirs[i]);
            }
        }
        if let Some(rel) = below_closest(path, rest) {
            let i = choose|i: int|
                #![trigger rest[i]]
                0 <= i < rest.len() && below(path, rest[i]) == Some(rel);
            assert(dirs[i] == rest[i]);
        }
        assert(dirs[dirs.len() - 1] == dirs.last());
    }
}

/// What follows `dir` in `path`, if `path` is `dir` or lies in it.
pub fn strip_dir<'a>(path: &'a FilePath, dir: &FilePath) -> (rel: Option<&'a [Component]>)
    ensures
        rel matches Some(r) ==> below(path@, dir@) == Some(views(r@)),
        rel is None ==> below(path@, dir@) is None,
{
    let n: usize = dir.parts.len();
    if n > path.parts.len() {
        return None;
    }
    let mut i: usize = 0;
    while i < n
        invariant
            i <= n,
            n == dir.parts@.len(),
            n <= path.parts@.len(),
            forall|k: int| 0 <= k < i ==> #[trigger] path@[k] == dir@[k],
        decreases n - i,
    {
        if !path.parts[i].is(&dir.parts[i]) {
            assert(path@[i as int] != dir@[i as int]);
            assert(!dir@.is_prefix_of(path@)) by {
                assert(path@.subrange(0, n as int)[i as int] == path@[i as int]);
            }
            return None;
        }
        i += 1;
    }
    assert(dir@ =~= path@.subrange(0, n as int));
    let rel = slice_subrange(path.parts.as_slice(), n, path.parts.len());
    assert(views(rel@) =~= path@.skip(n as int));
    Some(rel)
}

/// `path` relative to whichever output directory holds it most closely.
pub fn relative<'a>(path: &'a FilePath, dirs: &[FilePath]) -> (rel: Option<&'a [Component]>)
    ensures
        rel matches Some(r) ==> below_closest(path@, views(dirs@)) == Some(views(r@)),
        rel is None ==> below_closest(path@, views(dirs@)) is None,
{
    let mut best: Option<&'a [Component]> = None;
    let mut i: usize = 0;
    while i < dirs.len()
        invariant
            i <= dirs@.len(),
            best matches Some(r) ==> below_closest(path@, views(dirs@).take(i as int)) == Some(
                views(r@),
            ),
            best is None ==> below_closest(path@, views(dirs@).take(i as int)) is None,
        decreases dirs@.len() - i,
    {
        assert(views(dirs@).take(i + 1).drop_last() == views(dirs@).take(i as int));
        assert(views(dirs@).take(i + 1).last() == dirs@[i as int]@);
        if let Some(rel) = strip_dir(path, &dirs[i]) {
            match best {
                Some(shorter) => {
                    if rel.len() < shorter.len() {
                        best = Some(rel);
                    }
                },
                None => {
                    best = Some(rel);
                },
            }
        }
        i += 1;
    }
    assert(views(dirs@).take(i as int) == views(dirs@));
    best
}

/// The last component of a path, if it names something.
pub open spec fn file_name(path: Seq<Part>) -> Option<Seq<char>> {
    if path.len() > 0 {
        match path.last() {
            Part::Normal(text) => Some(text),
            _ => None,
        }
    } else {
        None
    }
}

/// The name that a directory is shown under.
pub open spec fn label(path: Seq<Part>) -> Seq<char> {
    match file_name(path) {
        Some(name) => name,
        None => Seq::empty(),
    }
}

impl FilePath {
    /// The last component, if it names something.
    pub fn name(&self) -> (name: Option<&str>)
        ensures
            name matches Some(n) ==> file_name(self@) == Some(n@),
            name is None ==> file_name(self@) is None,
    {
        let n: usize = self.parts.len();
        if n == 0 {
            return None;
        }
        assert(self@.last() == self.parts@[n - 1]@);
        match &self.parts[n - 1] {
            Component::Normal(text) => Some(text.as_str()),
            _ => None,
        }
    }

    /// Whether this path is `dir` or lies in it.
    pub fn starts_with(&self, dir: &FilePath) -> (yes: bool)
        ensures
            yes == dir@.is_prefix_of(self@),
    {
        strip_dir(self, dir).is_some()
    }

    /// Whether `self` and `other` are the same path.
    pub fn is(&self, other: &FilePath) -> (yes: bool)
        ensures
            yes == (self@ == other@),
    {
        let yes = self.parts.len() == other.parts.len() && self.starts_with(other);
        assert(self.parts@.len() == other.parts@.len() && other@.is_prefix_of(self@) ==> self@
            =~= other@);
        assert(self@ == other@ ==> other@.is_prefix_of(self@)) by {
            assert(self@.subrange(0, self@.len() as int) =~= self@);
        }
        yes
    }
}

/// The name that a directory is shown under: its last component, or nothing.
pub fn dir_label(path: &FilePath) -> (text: String)
    ensures
        text@ == label(path@),
{
    match path.name() {
        Some(name) => name.to_owned(),
        None => String::new(),
    }
}

/// The path of `name`, which stands for one component, in the directory `dir`.
pub open spec fn joined(dir: Seq<Part>, name: Seq<char>) -> Seq<Part> {
    if name.len() == 0 {
        dir
    } else if name == "."@ {
        if dir.len() == 0 {
            seq![Part::CurDir]
        } else {
            dir
        }
    } else if name == ".."@ {
        dir.push(Part::ParentDir)
    } else {
        dir.push(Part::Normal(name))
    }
}

/// The path of `name`, which stands for one component, in the directory `dir`.
pub fn join(dir: &FilePath, name: &str) -> (path: FilePath)
    ensures
        path@ == joined(dir@, name@),
{
    let mut path = dir.clone();
    let length: usize = name.unicode_len();
    if length == 0 {
        return path;
    }
    let ghost before = path.parts@;
    if same(name, ".") {
        if path.parts.len() == 0 {
            path.parts.push(Component::CurDir);
            assert(path@ == seq![Part::CurDir]);
        }
        return path;
    }
    if same(name, "..") {
        path.parts.push(Component::ParentDir);
        assert(path@ == views(before).push(Part::ParentDir));
        return path;
    }
    path.parts.push(Component::Normal(name.to_owned()));
    assert(path@ == views(before).push(Part::Normal(name@)));
    path
}

// ---------------------------------------------------------------- the order of paths
/// The place of a kind of component in the order of components.
pub open spec fn part_rank(part: Part) -> int {
    match part {
        Part::Prefix(_) => 0,
        Part::RootDir => 1,
        Part::CurDir => 2,
        Part::ParentDir => 3,
        Part::Normal(_) => 4,
    }
}

/// Whether the component `a` comes before `b`: by kind, then by text.
pub open spec fn part_before(a: Part, b: Part) -> bool {
    if part_rank(a) == part_rank(b) {
        text_before(part_text(a), part_text(b))
    } else {
        part_rank(a) < part_rank(b)
    }
}

/// Whether the path `a` comes before `b`, the first different component deciding.
pub open spec fn path_before(a: Seq<Part>, b: Seq<Part>) -> bool
    decreases a.len(),
{
    if b.len() == 0 {
        false
    } else if a.len() == 0 {
        true
    } else if a[0] == b[0] {
        path_before(a.skip(1), b.skip(1))
    } else {
        part_before(a[0], b[0])
    }
}

/// Of two different paths exactly one comes before the other.
pub proof fn lemma_path_total(a: Seq<Part>, b: Seq<Part>)
    ensures
        a != b <==> path_before(a, b) || path_before(b, a),
        !(path_before(a, b) && path_before(b, a)),
    decreases a.len(),
{
    if a.len() > 0 && b.len() > 0 {
        if a[0] == b[0] {
            lemma_path_total(a.skip(1), b.skip(1));
            if a.skip(1) == b.skip(1) {
                assert(a == seq![a[0]] + a.skip(1));
                assert(b == seq![b[0]] + b.skip(1));
            }
        } else {
            lemma_text_total(part_text(a[0]), part_text(b[0]));
        }
    } else if a.len() == 0 && b.len() == 0 {
        assert(a == b);
    }
}

/// A path before one that is before a third is before the third.
pub proof fn lemma_path_transitive(a: Seq<Part>, b: Seq<Part>, c: Seq<Part>)
    requires
        path_before(a, b),
        path_before(b, c),
    ensures
        path_before(a, c),
    decreases a.len(),
{
    if a.len() > 0 {
        lemma_text_total(part_text(a[0]), part_text(b[0]));
        lemma_text_total(part_text(b[0]), part_text(c[0]));
        lemma_text_total(part_text(a[0]), part_text(c[0]));
        if a[0] == b[0] && b[0] == c[0] {
            lemma_path_transitive(a.skip(1), b.skip(1), c.skip(1));
        } else if a[0] != b[0] && b[0] != c[0] {
            if part_rank(a[0]) == part_rank(b[0]) && part_rank(b[0]) == part_rank(c[0]) {
                lemma_text_transitive(part_text(a[0]), part_text(b[0]), part_text(c[0]));
            }
        }
    }
}

fn rank(part: &Component) -> (n: u8)
    ensures
        n == part_rank(part@),
{
    match part {
        Component::Prefix(_) => 0,
        Component::RootDir => 1,
        Component::CurDir => 2,
        Component::ParentDir => 3,
        Component::Normal(_) => 4,
    }
}

/// Whether the path `a` comes before `b`.
pub fn path_precedes(a: &FilePath, b: &FilePath) -> (yes: bool)
    ensures
        yes == path_before(a@, b@),
{
    let mut i: usize = 0;
    assert(a@.skip(0) == a@);
    assert(b@.skip(0) == b@);
    while i < a.parts.len() && i < b.parts.len() && a.parts[i].is(&b.parts[i])
        invariant
            i <= a.parts@.len(),
            i <= b.parts@.len(),
            path_before(a@, b@) == path_before(a@.skip(i as int), b@.skip(i as int)),
        decreases a.parts@.len() - i,
    {
        assert(a@.skip(i as int).skip(1) == a@.skip(i + 1));
        assert(b@.skip(i as int).skip(1) == b@.skip(i + 1));
        assert(a@[i as int] == b@[i as int]);
        i += 1;
    }
    if i == b.parts.len() {
        false
    } else if i == a.parts.len() {
        true
    } else {
        assert(a@.skip(i as int)[0] == a.parts@[i as int]@);
        assert(b@.skip(i as int)[0] == b.parts@[i as int]@);
        let x: u8 = rank(&a.parts[i]);
        let y: u8 = rank(&b.parts[i]);
        if x == y {
            precedes(a.parts[i].text(), b.parts[i].text())
        } else {
            x < y
        }
    }
}

} // verus!
