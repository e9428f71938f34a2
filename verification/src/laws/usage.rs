//! Laws of which crate a file belongs to, and of what the files in the output directories
//! add up to.

use crate::laws::text::{lemma_cut_first_char, lemma_cut_last, lemma_prefix};
use crate::path::{below, below_closest, file_name, joined, label, part_text, path_before, Part};
use crate::tally::{distinct, labels, sum_of, total};
use crate::text::{lines, trimmed, underscored, without_prefix};
use crate::time::Timestamp;
use crate::usage::{
    bucket_of, by_crate, by_owner, by_top, bytes_below, bytes_in, counted, counts, crate_label,
    crate_of, entry_of, file_id, files_below, files_in, first_where, hashes, is_artifact_dir,
    is_locked, is_pseudo, labelled, last_first, lemma_counts, linked_ids, locked_name, outputs,
    own_files, owner, stem_of, sums_by_label, texts, top_label, total_bytes, unit_of, units, Bucket,
    EntryView, FileFacts, FileView, Listing, Output,
};
use vstd::prelude::*;

verus! {

// ---------------------------------------------------------------- places
/// Whether none of the components is one of the directories that hold artifacts by crate.
pub open spec fn holds_no_artifacts(front: Seq<Part>) -> bool {
    forall|i: int|
        0 <= i < front.len() ==> {
            let name = part_text(#[trigger] front[i]);
            name != "deps"@ && name != "examples"@ && name != "build"@ && name != "incremental"@
                && name != ".fingerprint"@
        }
}

proof fn lemma_first_artifact_dir(front: Seq<Part>, dir: Seq<char>, back: Seq<Part>, at: int)
    requires
        holds_no_artifacts(front),
        is_artifact_dir(dir),
        0 <= at <= front.len(),
    ensures
        first_where(
            texts(front + seq![Part::Normal(dir)] + back),
            |name: Seq<char>| is_artifact_dir(name),
            at,
        ) == Some(front.len() as int),
    decreases front.len() - at,
{
    let rel = front + seq![Part::Normal(dir)] + back;
    assert(texts(rel)[at] == part_text(rel[at]));
    if at < front.len() {
        assert(rel[at] == front[at]);
        lemma_first_artifact_dir(front, dir, back, at + 1);
    } else {
        assert(rel[at] == Part::Normal(dir));
    }
}

proof fn lemma_no_artifact_dir(front: Seq<Part>, at: int)
    requires
        holds_no_artifacts(front),
        0 <= at <= front.len(),
    ensures
        first_where(texts(front), |name: Seq<char>| is_artifact_dir(name), at) is None,
    decreases front.len() - at,
{
    if at < front.len() {
        assert(texts(front)[at] == part_text(front[at]));
        lemma_no_artifact_dir(front, at + 1);
    }
}

// ---------------------------------------------------------------- names of artifacts
/// Every ending of a library is one: rlib, rmeta, so, a and dylib. The name of the library
/// stands between `lib` and the first point.
pub proof fn lemma_library_files(stem: Seq<char>)
    requires
        stem.len() > 0,
        !stem.contains('.'),
    ensures
        stem_of("lib"@ + stem + ".rlib"@) == Some(stem),
        stem_of("lib"@ + stem + ".rmeta"@) == Some(stem),
        stem_of("lib"@ + stem + ".so"@) == Some(stem),
        stem_of("lib"@ + stem + ".a"@) == Some(stem),
        stem_of("lib"@ + stem + ".dylib"@) == Some(stem),
{
    reveal_strlit("rlib");
    reveal_strlit("rmeta");
    reveal_strlit("so");
    reveal_strlit("a");
    reveal_strlit("dylib");
    reveal_strlit(".rlib");
    reveal_strlit(".rmeta");
    reveal_strlit(".so");
    reveal_strlit(".a");
    reveal_strlit(".dylib");
    lemma_library_file(stem, "rlib"@, ".rlib"@);
    lemma_library_file(stem, "rmeta"@, ".rmeta"@);
    lemma_library_file(stem, "so"@, ".so"@);
    lemma_library_file(stem, "a"@, ".a"@);
    lemma_library_file(stem, "dylib"@, ".dylib"@);
}

proof fn lemma_library_file(stem: Seq<char>, ending: Seq<char>, dotted: Seq<char>)
    requires
        stem.len() > 0,
        !stem.contains('.'),
        dotted =~= seq!['.'] + ending,
        ending == "rlib"@ || ending == "rmeta"@ || ending == "so"@ || ending == "a"@ || ending
            == "dylib"@,
    ensures
        stem_of("lib"@ + stem + dotted) == Some(stem),
{
    reveal_strlit("lib");
    reveal_strlit(".");
    let front = "lib"@ + stem;
    let file = front + dotted;
    assert(!front.contains('.')) by {
        if front.contains('.') {
            let k = choose|k: int| 0 <= k < front.len() && front[k] == '.';
            if k >= 3 {
                assert(stem[k - 3] == '.');
                assert(stem.contains('.'));
            }
        }
    }
    assert("."@ == seq!['.']);
    assert(file == front + seq!['.'] + ending);
    lemma_cut_first_char(front, '.', ending);
    lemma_prefix(front, "lib"@, stem);
}

/// A file with any other ending, or with none, goes by its name up to the first point.
pub proof fn lemma_other_files(stem: Seq<char>, ending: Seq<char>)
    requires
        stem.len() > 0,
        !stem.contains('.'),
        ending != "rlib"@ && ending != "rmeta"@ && ending != "so"@ && ending != "a"@ && ending
            != "dylib"@,
    ensures
        stem_of(stem + "."@ + ending) == Some(stem),
        stem_of(stem) == Some(stem),
{
    reveal_strlit(".");
    assert("."@ == seq!['.']);
    lemma_cut_first_char(stem, '.', ending);
    reveal_strlit("rlib");
    reveal_strlit("rmeta");
    reveal_strlit("so");
    reveal_strlit("a");
    reveal_strlit("dylib");
    assert("rlib"@.len() == 4 && "rmeta"@.len() == 5 && "so"@.len() == 2 && "a"@.len() == 1
        && "dylib"@.len() == 5);
}

/// A library without `lib` before its name goes by the whole of it; a file of which nothing
/// is left before the first point goes by nothing.
pub proof fn lemma_plain_libraries(stem: Seq<char>, ending: Seq<char>)
    requires
        !("lib"@).is_prefix_of(stem),
        !stem.contains('.'),
        ending == "rlib"@ || ending == "rmeta"@ || ending == "so"@ || ending == "a"@ || ending
            == "dylib"@,
    ensures
        stem.len() > 0 ==> stem_of(stem + "."@ + ending) == Some(stem),
        stem_of("."@ + ending) is None,
        stem_of("lib"@ + "."@ + ending) is None,
        stem_of(Seq::<char>::empty()) is None,
{
    reveal_strlit(".");
    reveal_strlit("lib");
    assert("."@ == seq!['.']);
    let none = Seq::<char>::empty();
    lemma_cut_first_char(stem, '.', ending);
    lemma_cut_first_char(none, '.', ending);
    assert(none + seq!['.'] + ending =~= "."@ + ending);
    assert(!("lib"@).contains('.')) by {
        assert("lib"@[0] == 'l' && "lib"@[1] == 'i' && "lib"@[2] == 'b');
    }
    lemma_cut_first_char("lib"@, '.', ending);
    lemma_prefix("lib"@, "lib"@, none);
    assert("lib"@ + none =~= "lib"@);
    if let Some(rest) = without_prefix(none, "lib"@) {
        lemma_prefix(none, "lib"@, rest);
        assert(("lib"@ + rest).len() == 0);
    }
}

/// Nothing before the hash is no name.
pub proof fn lemma_bare_hash(front: Seq<Part>, dir: Seq<char>, hash: Seq<char>, back: Seq<Part>)
    requires
        holds_no_artifacts(front),
        dir == "build"@ || dir == "incremental"@ || dir == ".fingerprint"@,
        !hash.contains('-'),
    ensures
        crate_of(
            front + seq![Part::Normal(dir)] + seq![Part::Normal("-"@ + hash)] + back,
        ) is None,
{
    reveal_strlit("-");
    assert("-"@ == seq!['-']);
    let unit = Part::Normal("-"@ + hash);
    let rel = front + seq![Part::Normal(dir)] + seq![unit] + back;
    assert(rel == front + seq![Part::Normal(dir)] + (seq![unit] + back));
    lemma_first_artifact_dir(front, dir, seq![unit] + back, 0);
    let n = front.len() as int;
    assert(texts(rel)[n] == part_text(rel[n]));
    assert(texts(rel)[n + 1] == part_text(rel[n + 1]));
    let none = Seq::<char>::empty();
    lemma_cut_last(none, '-', hash);
    assert(none + seq!['-'] + hash =~= "-"@ + hash);
    lemma_dirs_differ();
}

// ---------------------------------------------------------------- the crate of a file
/// Whether `name` and `hash` can stand on the two sides of the last hyphen of the name of
/// an artifact.
pub open spec fn is_unit_name(name: Seq<char>, hash: Seq<char>) -> bool {
    name.len() > 0 && !name.contains('.') && !hash.contains('.') && !hash.contains('-')
}

/// In deps/ and examples/ every file of a crate belongs to it, whatever its ending: the
/// libraries, which have `lib` before their name, the dependency lists and the programs.
pub proof fn lemma_files_of_crate(
    front: Seq<Part>,
    dir: Seq<char>,
    name: Seq<char>,
    hash: Seq<char>,
    ending: Seq<char>,
    back: Seq<Part>,
)
    requires
        holds_no_artifacts(front),
        dir == "deps"@ || dir == "examples"@,
        is_unit_name(name, hash),
        ending != "rlib"@ && ending != "rmeta"@ && ending != "so"@ && ending != "a"@ && ending
            != "dylib"@,
    ensures
        ({
            let unit = name + "-"@ + hash;
            let at = |file: Seq<char>|
                front + seq![Part::Normal(dir)] + seq![Part::Normal(file)] + back;
            &&& crate_of(at("lib"@ + unit + ".rlib"@)) == Some(underscored(name))
            &&& crate_of(at("lib"@ + unit + ".rmeta"@)) == Some(underscored(name))
            &&& crate_of(at("lib"@ + unit + ".so"@)) == Some(underscored(name))
            &&& crate_of(at("lib"@ + unit + ".a"@)) == Some(underscored(name))
            &&& crate_of(at("lib"@ + unit + ".dylib"@)) == Some(underscored(name))
            &&& crate_of(at(unit + "."@ + ending)) == Some(underscored(name))
            &&& crate_of(at(unit)) == Some(underscored(name))
        }),
{
    reveal_strlit("-");
    let unit = name + "-"@ + hash;
    assert("-"@ == seq!['-']);
    assert(!unit.contains('.')) by {
        if unit.contains('.') {
            let k = choose|k: int| 0 <= k < unit.len() && unit[k] == '.';
            if k < name.len() {
                assert(name[k] == '.');
            } else if k > name.len() {
                assert(hash[k - name.len() - 1] == '.');
            }
        }
    }
    lemma_library_files(unit);
    lemma_other_files(unit, ending);
    lemma_in_artifact_dir(front, dir, "lib"@ + unit + ".rlib"@, name, hash, back);
    lemma_in_artifact_dir(front, dir, "lib"@ + unit + ".rmeta"@, name, hash, back);
    lemma_in_artifact_dir(front, dir, "lib"@ + unit + ".so"@, name, hash, back);
    lemma_in_artifact_dir(front, dir, "lib"@ + unit + ".a"@, name, hash, back);
    lemma_in_artifact_dir(front, dir, "lib"@ + unit + ".dylib"@, name, hash, back);
    lemma_in_artifact_dir(front, dir, unit + "."@ + ending, name, hash, back);
    lemma_in_artifact_dir(front, dir, unit, name, hash, back);
}

proof fn lemma_in_artifact_dir(
    front: Seq<Part>,
    dir: Seq<char>,
    file: Seq<char>,
    name: Seq<char>,
    hash: Seq<char>,
    back: Seq<Part>,
)
    requires
        holds_no_artifacts(front),
        dir == "deps"@ || dir == "examples"@,
        name.len() > 0,
        !hash.contains('-'),
        stem_of(file) == Some(name + "-"@ + hash),
    ensures
        crate_of(front + seq![Part::Normal(dir)] + seq![Part::Normal(file)] + back) == Some(
            underscored(name),
        ),
{
    reveal_strlit("-");
    assert("-"@ == seq!['-']);
    let rel = front + seq![Part::Normal(dir)] + seq![Part::Normal(file)] + back;
    assert(rel == front + seq![Part::Normal(dir)] + (seq![Part::Normal(file)] + back));
    lemma_first_artifact_dir(front, dir, seq![Part::Normal(file)] + back, 0);
    let n = front.len() as int;
    assert(texts(rel)[n] == part_text(rel[n]));
    assert(texts(rel)[n + 1] == part_text(rel[n + 1]));
    lemma_cut_last(name, '-', hash);
}

/// Whatever lies in the directory of a build unit below build/, incremental/ or
/// .fingerprint/ belongs to the crate of the unit.
pub proof fn lemma_units_of_crate(
    front: Seq<Part>,
    dir: Seq<char>,
    name: Seq<char>,
    hash: Seq<char>,
    back: Seq<Part>,
)
    requires
        holds_no_artifacts(front),
        dir == "build"@ || dir == "incremental"@ || dir == ".fingerprint"@,
        name.len() > 0,
        !hash.contains('-'),
    ensures
        crate_of(
            front + seq![Part::Normal(dir)] + seq![Part::Normal(name + "-"@ + hash)] + back,
        ) == Some(underscored(name)),
{
    reveal_strlit("-");
    assert("-"@ == seq!['-']);
    let unit = Part::Normal(name + "-"@ + hash);
    let rel = front + seq![Part::Normal(dir)] + seq![unit] + back;
    assert(rel == front + seq![Part::Normal(dir)] + (seq![unit] + back));
    lemma_first_artifact_dir(front, dir, seq![unit] + back, 0);
    let n = front.len() as int;
    assert(texts(rel)[n] == part_text(rel[n]));
    assert(texts(rel)[n + 1] == part_text(rel[n + 1]));
    lemma_cut_last(name, '-', hash);
    lemma_dirs_differ();
}

proof fn lemma_dirs_differ()
    ensures
        "build"@ != "deps"@,
        "build"@ != "examples"@,
        "incremental"@ != "deps"@,
        "incremental"@ != "examples"@,
        ".fingerprint"@ != "deps"@,
        ".fingerprint"@ != "examples"@,
{
    reveal_strlit("build");
    reveal_strlit("deps");
    reveal_strlit("examples");
    reveal_strlit("incremental");
    reveal_strlit(".fingerprint");
    assert("build"@.len() == 5 && "deps"@.len() == 4 && "examples"@.len() == 8
        && "incremental"@.len() == 11 && ".fingerprint"@.len() == 12);
}

/// Without a hyphen nothing tells a name from a hash: such a file is of no crate.
pub proof fn lemma_no_hash_no_crate(
    front: Seq<Part>,
    dir: Seq<char>,
    name: Seq<char>,
    back: Seq<Part>,
)
    requires
        holds_no_artifacts(front),
        is_artifact_dir(dir),
        !name.contains('-'),
        !name.contains('.'),
    ensures
        crate_of(front + seq![Part::Normal(dir)] + seq![Part::Normal(name)] + back) is None,
        crate_of(front + seq![Part::Normal(dir)]) is None,
{
    let rel = front + seq![Part::Normal(dir)] + seq![Part::Normal(name)] + back;
    assert(rel == front + seq![Part::Normal(dir)] + (seq![Part::Normal(name)] + back));
    lemma_first_artifact_dir(front, dir, seq![Part::Normal(name)] + back, 0);
    let short = front + seq![Part::Normal(dir)];
    assert(short == front + seq![Part::Normal(dir)] + Seq::<Part>::empty());
    lemma_first_artifact_dir(front, dir, Seq::empty(), 0);
    let n = front.len() as int;
    assert(texts(rel)[n + 1] == part_text(rel[n + 1]));
    lemma_cut_last(Seq::empty(), '-', name);
    reveal_strlit(".");
    assert("."@ == seq!['.']);
    lemma_cut_first_char(name, '.', Seq::empty());
    reveal_strlit("rlib");
    reveal_strlit("rmeta");
    reveal_strlit("so");
    reveal_strlit("a");
    reveal_strlit("dylib");
    assert("rlib"@.len() == 4 && "rmeta"@.len() == 5 && "so"@.len() == 2 && "a"@.len() == 1
        && "dylib"@.len() == 5);
}

/// A file directly in a profile directory belongs to the crate that it is named after,
/// unless it is hidden or a package; a file elsewhere outside the directories that hold
/// artifacts belongs to none.
pub proof fn lemma_final_artifacts(rel: Seq<Part>)
    requires
        holds_no_artifacts(rel),
    ensures
        rel.len() != 2 ==> crate_of(rel) is None,
        rel.len() == 2 && part_text(rel[0]) == "package"@ ==> crate_of(rel) is None,
        rel.len() == 2 && part_text(rel[1]).len() > 0 && part_text(rel[1])[0] == '.' ==> crate_of(
            rel,
        ) is None,
        rel.len() == 2 && part_text(rel[0]) != "package"@ && !(part_text(rel[1]).len() > 0
            && part_text(rel[1])[0] == '.') ==> crate_of(rel) == match stem_of(part_text(rel[1])) {
            Some(stem) => Some(underscored(stem)),
            None => None,
        },
{
    lemma_no_artifact_dir(rel, 0);
    if rel.len() == 2 {
        assert(texts(rel)[0] == part_text(rel[0]));
        assert(texts(rel)[1] == part_text(rel[1]));
    }
}

/// A file in an output directory counts under its crate, or under `(other)`; one outside
/// counts nowhere.
pub proof fn lemma_crate_labels(file: EntryView, dirs: Seq<Seq<Part>>)
    ensures
        below_closest(file.path, dirs) is None ==> crate_label(file, dirs) is None && owner(
            file,
            dirs,
        ) is None,
        below_closest(file.path, dirs) matches Some(rel) ==> {
            &&& crate_of(rel) matches Some(name) ==> crate_label(file, dirs) == Some(name)
                && owner(file, dirs) == Some(name)
            &&& crate_of(rel) is None ==> crate_label(file, dirs) == Some("(other)"@) && owner(
                file,
                dirs,
            ) is None
        },
{
}

// ---------------------------------------------------------------- paths
/// What follows a directory in a path below it.
pub proof fn lemma_below(path: Seq<Part>, dir: Seq<Part>, rel: Seq<Part>)
    ensures
        below(path, dir) == Some(rel) <==> path == dir + rel,
        below(dir + rel, dir) == Some(rel),
{
    if below(path, dir) == Some(rel) {
        assert(path == dir + path.skip(dir.len() as int));
    }
    assert((dir + rel).skip(dir.len() as int) == rel);
}

/// A file counts under the first component below a directory, with a slash if more
/// follow.
pub proof fn lemma_top_labels(base: Seq<Part>, first: Part, rest: Seq<Part>, file: EntryView)
    ensures
        file.path == base + seq![first] ==> top_label(file, base) == Some(part_text(first)),
        file.path == base + seq![first] + rest && rest.len() > 0 ==> top_label(file, base) == Some(
            part_text(first) + "/"@,
        ),
        file.path == base ==> top_label(file, base) is None,
        !base.is_prefix_of(file.path) ==> top_label(file, base) is None,
{
    reveal_strlit("/");
    lemma_below(file.path, base, seq![first]);
    lemma_below(file.path, base, seq![first] + rest);
    lemma_below(file.path, base, Seq::empty());
    assert(base + seq![first] + rest == base + (seq![first] + rest));
    assert(part_text(first).push('/') == part_text(first) + "/"@);
    assert(base + Seq::<Part>::empty() == base);
}

/// The name of a directory is its last component; the root has none.
pub proof fn lemma_labels(dir: Seq<Part>, name: Seq<char>)
    ensures
        file_name(dir.push(Part::Normal(name))) == Some(name),
        label(dir.push(Part::Normal(name))) == name,
        label(dir.push(Part::ParentDir)) == Seq::<char>::empty(),
        label(dir.push(Part::RootDir)) == Seq::<char>::empty(),
        label(Seq::<Part>::empty()) == Seq::<char>::empty(),
        name.len() > 0 && name != "."@ && name != ".."@ ==> joined(dir, name) == dir.push(
            Part::Normal(name),
        ),
{
}

/// The first component that differs decides the order of paths; a directory stands before
/// what lies in it.
pub proof fn lemma_path_order(
    common: Seq<Part>,
    a: Seq<char>,
    x: Seq<Part>,
    b: Seq<char>,
    y: Seq<Part>,
)
    ensures
        crate::order::text_before(a, b) && a != b ==> path_before(
            common + seq![Part::Normal(a)] + x,
            common + seq![Part::Normal(b)] + y,
        ),
        path_before(common, common + seq![Part::Normal(a)] + x),
    decreases common.len(),
{
    let one = common + seq![Part::Normal(a)] + x;
    let two = common + seq![Part::Normal(b)] + y;
    if common.len() > 0 {
        let rest = common.skip(1);
        lemma_path_order(rest, a, x, b, y);
        assert(one.skip(1) == rest + seq![Part::Normal(a)] + x);
        assert(two.skip(1) == rest + seq![Part::Normal(b)] + y);
        assert(one[0] == common[0] && two[0] == common[0]);
    } else {
        assert(one[0] == Part::Normal(a));
        assert(two[0] == Part::Normal(b));
    }
}

/// Cargo's two output directories are both looked at, the target directory first, unless
/// one holds the other: then that one alone.
pub proof fn lemma_output_choice(target: Seq<Part>, build: Seq<Part>)
    ensures
        target.is_prefix_of(build) ==> outputs(target, build) == seq![Output::Target],
        !target.is_prefix_of(build) && build.is_prefix_of(target) ==> outputs(target, build)
            == seq![Output::Build],
        !target.is_prefix_of(build) && !build.is_prefix_of(target) ==> outputs(target, build)
            == seq![Output::Target, Output::Build],
{
}

// ---------------------------------------------------------------- adding up
/// Files are added up one by one: each that has a label adds its size under it.
pub proof fn lemma_labelled_steps(
    files: Seq<EntryView>,
    file: EntryView,
    label: spec_fn(EntryView) -> Option<Seq<char>>,
)
    ensures
        labelled(Seq::<EntryView>::empty(), label) == Seq::<(Seq<char>, u64)>::empty(),
        label(file) matches Some(text) ==> labelled(files.push(file), label) == labelled(
            files,
            label,
        ).push((text, file.bytes)),
        label(file) is None ==> labelled(files.push(file), label) == labelled(files, label),
{
    assert(files.push(file).drop_last() == files);
}

/// Sizes are added up by what each is asked for: the first component, the crate or
/// `(other)`, the crate alone.
pub proof fn lemma_tables_of_files(
    files: Seq<EntryView>,
    file: EntryView,
    base: Seq<Part>,
    dirs: Seq<Seq<Part>>,
)
    ensures
        by_top(files.push(file), base) == match top_label(file, base) {
            Some(text) => by_top(files, base).push((text, file.bytes)),
            None => by_top(files, base),
        },
        by_crate(files.push(file), dirs) == match crate_label(file, dirs) {
            Some(text) => by_crate(files, dirs).push((text, file.bytes)),
            None => by_crate(files, dirs),
        },
        by_owner(files.push(file), dirs) == match owner(file, dirs) {
            Some(text) => by_owner(files, dirs).push((text, file.bytes)),
            None => by_owner(files, dirs),
        },
{
    lemma_labelled_steps(files, file, |f: EntryView| top_label(f, base));
    lemma_labelled_steps(files, file, |f: EntryView| crate_label(f, dirs));
    lemma_labelled_steps(files, file, |f: EntryView| owner(f, dirs));
}

/// A figure counts once, under its own label.
pub proof fn lemma_sums_steps(
    items: Seq<(Seq<char>, u64)>,
    label: Seq<char>,
    n: u64,
    other: Seq<char>,
)
    requires
        other != label,
    ensures
        sum_of(Seq::<(Seq<char>, u64)>::empty(), label) == 0,
        sum_of(items.push((label, n)), label) == sum_of(items, label) + n,
        sum_of(items.push((label, n)), other) == sum_of(items, other),
        total(Seq::<(Seq<char>, u64)>::empty()) == 0,
        total(items.push((label, n))) == total(items) + n,
        labels(items.push((label, n))) == labels(items).push(label),
{
    assert(items.push((label, n)).drop_last() == items);
    assert(labels(items.push((label, n))) == labels(items).push(label));
}

/// The size of a crate is what all its files add up to.
pub proof fn lemma_crate_size(items: Seq<(Seq<char>, u64)>, name: Seq<char>)
    requires
        crate::tally::sums_fit(items),
    ensures
        sums_by_label(items).contains_key(name) <==> labels(items).contains(name),
        labels(items).contains(name) ==> sums_by_label(items)[name] == sum_of(items, name),
{
    assert(sum_of(items, name) <= u64::MAX);
}

/// Bytes are added up file by file.
pub proof fn lemma_bytes_steps(
    files: Seq<EntryView>,
    file: EntryView,
    dirs: Seq<Seq<Part>>,
    now: Timestamp,
    bucket: Bucket,
)
    ensures
        total_bytes(Seq::<EntryView>::empty()) == 0,
        total_bytes(files.push(file)) == total_bytes(files) + file.bytes,
        bytes_below(Seq::<EntryView>::empty(), dirs) == 0,
        below_closest(file.path, dirs) is Some ==> bytes_below(files.push(file), dirs)
            == bytes_below(files, dirs) + file.bytes,
        below_closest(file.path, dirs) is None ==> bytes_below(files.push(file), dirs)
            == bytes_below(files, dirs),
        bytes_in(Seq::<EntryView>::empty(), dirs, now, bucket) == 0,
        bucket_of(file, dirs, now) == bucket ==> bytes_in(files.push(file), dirs, now, bucket)
            == bytes_in(files, dirs, now, bucket) + file.bytes,
        bucket_of(file, dirs, now) != bucket ==> bytes_in(files.push(file), dirs, now, bucket)
            == bytes_in(files, dirs, now, bucket),
{
    assert(files.push(file).drop_last() == files);
}

// ---------------------------------------------------------------- what could be removed
/// A file below a directory called `incremental` could be removed as such, however old it
/// is; any other file in an output directory if it was written more than thirty days ago.
pub proof fn lemma_buckets(file: EntryView, dirs: Seq<Seq<Part>>, now: Timestamp, rel: Seq<Part>)
    requires
        below_closest(file.path, dirs) == Some(rel),
    ensures
        ({
            let nanos = (now.secs - file.modified.secs) * 1_000_000_000 + (now.nanos
                - file.modified.nanos);
            let cache = exists|i: int|
                0 <= i < rel.len() && part_text(#[trigger] rel[i]) == "incremental"@;
            &&& cache ==> bucket_of(file, dirs, now) == Bucket::Incremental
            &&& !cache && nanos > 30 * 24 * 60 * 60 * 1_000_000_000 ==> bucket_of(file, dirs, now)
                == Bucket::Old
            &&& !cache && nanos <= 30 * 24 * 60 * 60 * 1_000_000_000 ==> bucket_of(
                file,
                dirs,
                now,
            ) == Bucket::Neither
        }),
{
    let nanos = (now.secs - file.modified.secs) * 1_000_000_000 + (now.nanos
        - file.modified.nanos);
    assert(now.total() - file.modified.total() == nanos);
    if texts(rel).contains("incremental"@) {
        let i = choose|i: int| 0 <= i < texts(rel).len() && texts(rel)[i] == "incremental"@;
        assert(part_text(rel[i]) == "incremental"@);
    }
    if exists|i: int| 0 <= i < rel.len() && part_text(#[trigger] rel[i]) == "incremental"@ {
        let i = choose|i: int| 0 <= i < rel.len() && part_text(#[trigger] rel[i]) == "incremental"@;
        assert(texts(rel)[i] == "incremental"@);
    }
}

/// A file outside the output directories is never removed.
pub proof fn lemma_outside_bucket(file: EntryView, dirs: Seq<Seq<Part>>, now: Timestamp)
    requires
        below_closest(file.path, dirs) is None,
    ensures
        bucket_of(file, dirs, now) == Bucket::Neither,
{
}

// ---------------------------------------------------------------- builds
proof fn lemma_first_fingerprint(front: Seq<Part>, back: Seq<Part>, at: int)
    requires
        forall|i: int|
            0 <= i < front.len() ==> part_text(#[trigger] front[i]) != ".fingerprint"@,
        0 <= at <= front.len(),
    ensures
        first_where(
            texts(front + seq![Part::Normal(".fingerprint"@)] + back),
            |name: Seq<char>| name == ".fingerprint"@,
            at,
        ) == Some(front.len() as int),
        first_where(texts(front), |name: Seq<char>| name == ".fingerprint"@, at) is None,
    decreases front.len() - at,
{
    let rel = front + seq![Part::Normal(".fingerprint"@)] + back;
    assert(texts(rel)[at] == part_text(rel[at]));
    if at < front.len() {
        assert(rel[at] == front[at]);
        assert(texts(front)[at] == part_text(front[at]));
        lemma_first_fingerprint(front, back, at + 1);
    } else {
        assert(rel[at] == Part::Normal(".fingerprint"@));
    }
}

/// The component below .fingerprint names a build unit: its crate up to the last hyphen,
/// and its hash after it. Nothing else is a build unit.
pub proof fn lemma_build_unit(
    file: EntryView,
    dirs: Seq<Seq<Part>>,
    front: Seq<Part>,
    name: Seq<char>,
    hash: Seq<char>,
    back: Seq<Part>,
)
    requires
        forall|i: int|
            0 <= i < front.len() ==> part_text(#[trigger] front[i]) != ".fingerprint"@,
        !hash.contains('-'),
    ensures
        below_closest(file.path, dirs) == Some(
            front + seq![Part::Normal(".fingerprint"@)] + seq![Part::Normal(name + "-"@ + hash)]
                + back,
        ) ==> unit_of(file, dirs) == Some((underscored(name), hash)),
        below_closest(file.path, dirs) == Some(front) ==> unit_of(file, dirs) is None,
        below_closest(file.path, dirs) == Some(
            front + seq![Part::Normal(".fingerprint"@)],
        ) ==> unit_of(file, dirs) is None,
        below_closest(file.path, dirs) == Some(
            front + seq![Part::Normal(".fingerprint"@)] + seq![Part::Normal(hash)] + back,
        ) ==> unit_of(file, dirs) is None,
        below_closest(file.path, dirs) is None ==> unit_of(file, dirs) is None,
{
    reveal_strlit("-");
    assert("-"@ == seq!['-']);
    let unit = seq![Part::Normal(name + "-"@ + hash)];
    let rel = front + seq![Part::Normal(".fingerprint"@)] + unit + back;
    assert(rel == front + seq![Part::Normal(".fingerprint"@)] + (unit + back));
    lemma_first_fingerprint(front, unit + back, 0);
    assert(rel[front.len() as int + 1] == unit[0]);
    let last = front + seq![Part::Normal(".fingerprint"@)];
    assert(last =~= front + seq![Part::Normal(".fingerprint"@)] + Seq::<Part>::empty());
    lemma_first_fingerprint(front, Seq::empty(), 0);
    let bare = seq![Part::Normal(hash)];
    let other = front + seq![Part::Normal(".fingerprint"@)] + bare + back;
    assert(other == front + seq![Part::Normal(".fingerprint"@)] + (bare + back));
    lemma_first_fingerprint(front, bare + back, 0);
    assert(other[front.len() as int + 1] == bare[0]);
    lemma_cut_last(name, '-', hash);
}

/// Units are listed file by file, and hashes unit by unit.
pub proof fn lemma_units_steps(
    files: Seq<EntryView>,
    file: EntryView,
    dirs: Seq<Seq<Part>>,
    found: Seq<(Seq<char>, Seq<char>)>,
    name: Seq<char>,
    hash: Seq<char>,
    other: Seq<char>,
)
    requires
        other != name,
    ensures
        units(Seq::<EntryView>::empty(), dirs) == Seq::<(Seq<char>, Seq<char>)>::empty(),
        unit_of(file, dirs) matches Some(unit) ==> units(files.push(file), dirs) == units(
            files,
            dirs,
        ).push(unit),
        unit_of(file, dirs) is None ==> units(files.push(file), dirs) == units(files, dirs),
        hashes(Seq::<(Seq<char>, Seq<char>)>::empty(), name) == Seq::<Seq<char>>::empty(),
        hashes(found.push((name, hash)), name) == hashes(found, name).push(hash),
        hashes(found.push((other, hash)), name) == hashes(found, name),
{
    assert(files.push(file).drop_last() == files);
    assert(found.push((name, hash)).drop_last() == found);
    assert(found.push((other, hash)).drop_last() == found);
}

/// A crate has a row exactly if more than three different hashes were built of it.
pub proof fn lemma_more_than_three(
    files: Seq<EntryView>,
    dirs: Seq<Seq<Part>>,
    name: Seq<char>,
    n: usize,
)
    requires
        files.len() <= usize::MAX,
    ensures
        counts(files, dirs).contains((name, n)) <==> n > 3 && n == distinct(
            hashes(units(files, dirs), name),
        ).len(),
{
    lemma_counts(files, dirs, name, n);
}

// ---------------------------------------------------------------- walking
/// The files of a directory are those of its subdirectories, then its own, each in order.
pub proof fn lemma_files_steps(items: Seq<Listing>, inner: Vec<Listing>, file: FileFacts)
    ensures
        files_in(items) == files_below(items) + own_files(items),
        files_below(Seq::<Listing>::empty()) == Seq::<FileView>::empty(),
        own_files(Seq::<Listing>::empty()) == Seq::<FileView>::empty(),
        files_below(items.push(Listing::Dir(inner))) == files_below(items) + files_in(inner@),
        own_files(items.push(Listing::Dir(inner))) == own_files(items),
        files_below(items.push(Listing::File(file))) == files_below(items),
        own_files(items.push(Listing::File(file))) == own_files(items).push(file@),
{
    assert(items.push(Listing::Dir(inner)).drop_last() == items);
    assert(items.push(Listing::File(file)).drop_last() == items);
    assert(files_below(items) + Seq::<FileView>::empty() == files_below(items));
}

/// The last of several directories is walked first.
pub proof fn lemma_last_first_steps(listings: Seq<Vec<Listing>>, last: Vec<Listing>)
    ensures
        last_first(Seq::<Vec<Listing>>::empty()) == Seq::<FileView>::empty(),
        last_first(listings.push(last)) == files_in(last@) + last_first(listings),
{
    assert(listings.push(last).drop_last() == listings);
}

/// A file counts unless it has several names of which one was seen before.
pub proof fn lemma_counted_file(file: FileView, seen: Set<u128>)
    ensures
        counted(seq![file], seen) == if file.links > 1 && seen.contains(file_id(file)) {
            Seq::<FileView>::empty()
        } else {
            seq![file]
        },
        linked_ids(seq![file]) == if file.links > 1 {
            set![file_id(file)]
        } else {
            Set::<u128>::empty()
        },
        counted(Seq::<FileView>::empty(), seen) == Seq::<FileView>::empty(),
{
    let one = seq![file];
    assert(one.drop_last() == Seq::<FileView>::empty());
    assert(seen.union(linked_ids(one.drop_last())) =~= seen);
    assert(linked_ids(one) =~= if file.links > 1 {
        set![file_id(file)]
    } else {
        Set::<u128>::empty()
    });
    let none = Seq::<FileView>::empty();
    assert(none.push(file) =~= one);
    assert(counted(none, seen) == none);
    assert(linked_ids(none) =~= Set::<u128>::empty());
    assert(one.last() == file);
    assert(seen.union(linked_ids(none)).contains(file_id(file)) == seen.contains(file_id(file)));
    if file.links > 1 && seen.contains(file_id(file)) {
        assert(counted(one, seen) == counted(none, seen));
    } else {
        assert(counted(one, seen) == counted(none, seen).push(file));
    }
}

/// A file keeps its path and size; where its age is unknown it counts as written in 1970.
pub proof fn lemma_entry(file: FileView)
    ensures
        entry_of(file).path == file.path,
        entry_of(file).bytes == file.bytes,
        file.modified matches Some(time) ==> entry_of(file).modified == time,
        file.modified is None ==> entry_of(file).modified == (Timestamp { secs: 0, nanos: 0 }),
{
}

// ---------------------------------------------------------------- orphans
/// A line of the lockfile names a package if it is `name = ` and a quoted name, with or
/// without space around it; the name counts with underscores for hyphens.
pub proof fn lemma_locked_line(
    before: Seq<char>,
    name: Seq<char>,
    after: Seq<char>,
)
    requires
        crate::laws::text::all_space(before),
        crate::laws::text::all_space(after),
        name.len() > 0,
        name[0] != '"',
        name.last() != '"',
    ensures
        locked_name(before + ("name = "@ + "\""@ + name + "\""@) + after) == Some(
            underscored(name),
        ),
{
    reveal_strlit("name = ");
    reveal_strlit("\"");
    let quoted = "\""@ + name + "\""@;
    let core = "name = "@ + quoted;
    assert("name = "@ + "\""@ + name + "\""@ == core);
    assert(core[0] == 'n');
    assert(core.last() == '"');
    crate::laws::text::lemma_trimmed(before, core, after);
    lemma_prefix(core, "name = "@, quoted);
    let none = Seq::<char>::empty();
    assert(quoted[0] == '"' && quoted.last() == '"');
    crate::laws::text::lemma_trimmed(none, quoted, none);
    assert(none + quoted + none == quoted);
    assert(quoted == seq!['"'] + name.push('"'));
    crate::laws::text::lemma_unquoted(name.push('"'));
    crate::laws::text::lemma_unquoted(name);
}

/// Any other line names none.
pub proof fn lemma_other_lock_line(line: Seq<char>)
    requires
        !("name = "@).is_prefix_of(trimmed(line)),
    ensures
        locked_name(line) is None,
{
}

/// A package is locked exactly if some line names it.
pub proof fn lemma_locked(lock: Seq<char>, name: Seq<char>)
    ensures
        is_locked(lock, name) <==> exists|i: int|
            0 <= i < lines(lock).len() && locked_name(#[trigger] lines(lock)[i]) == Some(name),
{
}

/// Three names are those of no crate.
pub proof fn lemma_no_crate(name: Seq<char>)
    ensures
        is_pseudo(name) <==> name == "(other)"@ || name == "build_script_build"@ || name
            == "build_script_main"@,
{
}

} // verus!
