//! What lies in the output directories, and which crate it belongs to.

use crate::metadata::Metadata;
use crate::path::{
    below, below_closest, part_text, relative, strip_dir, Component, FilePath, Part,
};
use crate::tally::{
    distinct, group, grouped, labels, lemma_distinct, lemma_grouped, lemma_grouped_total,
    lemma_sum_of_absent, lemma_sum_over_at_most, sum_of, sum_over, sums_fit, total,
};
use crate::text::{
    chars_of, cut_at_first, cut_at_last, lemma_underscored, lines, rsplit_once, same, spells,
    split_lines, split_once, strip_prefix, text_of, trim, trim_quotes, trimmed, underscore,
    underscored, unquoted, views, without_prefix,
};
use crate::time::{elapsed, nanos_between, Timestamp, DAY};
use std::collections::HashSet;
use vstd::hash_map::StringHashMap;
use vstd::hash_set::StringHashSet;
use vstd::prelude::*;

verus! {

/// A file that was built less than this many days ago is not old.
pub const OLD_AFTER_DAYS: u64 = 30;

/// More build units than this are worth a line.
pub const MANY_BUILDS: u64 = 3;

/// A file in an output directory.
pub struct Entry {
    pub path: FilePath,
    pub bytes: u64,
    pub modified: Timestamp,
}

/// What an [`Entry`] holds.
#[verifier::ext_equal]
pub struct EntryView {
    pub path: Seq<Part>,
    pub bytes: u64,
    pub modified: Timestamp,
}

impl View for Entry {
    type V = EntryView;

    open spec fn view(&self) -> EntryView {
        EntryView { path: self.path@, bytes: self.bytes, modified: self.modified }
    }
}

// ---------------------------------------------------------------- walking
/// What the file system says of a file.
pub struct FileFacts {
    pub path: FilePath,
    pub bytes: u64,
    /// When it was last written, if that is known.
    pub modified: Option<Timestamp>,
    /// How many names it has.
    pub links: u64,
    pub device: u64,
    pub inode: u64,
}

/// What stands in a directory.
pub enum Listing {
    Dir(Vec<Listing>),
    File(FileFacts),
}

/// What a [`FileFacts`] holds.
#[verifier::ext_equal]
pub struct FileView {
    pub path: Seq<Part>,
    pub bytes: u64,
    pub modified: Option<Timestamp>,
    pub links: u64,
    pub device: u64,
    pub inode: u64,
}

impl View for FileFacts {
    type V = FileView;

    open spec fn view(&self) -> FileView {
        FileView {
            path: self.path@,
            bytes: self.bytes,
            modified: self.modified,
            links: self.links,
            device: self.device,
            inode: self.inode,
        }
    }
}

/// The number that tells a file from every other, whatever its name.
pub open spec fn file_id(file: FileView) -> u128 {
    (file.device * 0x1_0000_0000_0000_0000 + file.inode) as u128
}

/// Files with the same number are on the same device under the same inode.
pub proof fn lemma_file_id(a: FileView, b: FileView)
    ensures
        file_id(a) == file_id(b) <==> a.device == b.device && a.inode == b.inode,
{
    assert(a.device * 0x1_0000_0000_0000_0000 + a.inode <= u128::MAX);
    assert(b.device * 0x1_0000_0000_0000_0000 + b.inode <= u128::MAX);
}

/// The files in and below a directory: those of its subdirectories first, then its own.
pub open spec fn files_in(items: Seq<Listing>) -> Seq<FileView>
    decreases items, 1int,
{
    files_below(items) + own_files(items)
}

/// The files in the subdirectories of a directory.
pub open spec fn files_below(items: Seq<Listing>) -> Seq<FileView>
    decreases items, 0int,
{
    if items.len() == 0 {
        Seq::empty()
    } else {
        files_below(items.drop_last()) + match items.last() {
            Listing::Dir(inner) => files_in(inner@),
            Listing::File(_) => Seq::empty(),
        }
    }
}

/// The files that stand in a directory itself.
pub open spec fn own_files(items: Seq<Listing>) -> Seq<FileView>
    decreases items.len(),
{
    if items.len() == 0 {
        Seq::empty()
    } else {
        match items.last() {
            Listing::Dir(_) => own_files(items.drop_last()),
            Listing::File(file) => own_files(items.drop_last()).push(file@),
        }
    }
}

/// The numbers of those files that have several names.
pub open spec fn linked_ids(files: Seq<FileView>) -> Set<u128>
    decreases files.len(),
{
    if files.len() == 0 {
        Set::empty()
    } else {
        let others = linked_ids(files.drop_last());
        if files.last().links > 1 {
            others.insert(file_id(files.last()))
        } else {
            others
        }
    }
}

/// `files` without those that an earlier one, or one in `seen`, is another name of.
pub open spec fn counted(files: Seq<FileView>, seen: Set<u128>) -> Seq<FileView>
    decreases files.len(),
{
    if files.len() == 0 {
        Seq::empty()
    } else {
        let earlier = files.drop_last();
        let file = files.last();
        if file.links > 1 && seen.union(linked_ids(earlier)).contains(file_id(file)) {
            counted(earlier, seen)
        } else {
            counted(earlier, seen).push(file)
        }
    }
}

/// The entry that a file makes. One whose age is unknown counts as ancient.
pub open spec fn entry_of(file: FileView) -> EntryView {
    EntryView {
        path: file.path,
        bytes: file.bytes,
        modified: match file.modified {
            Some(time) => time,
            None => Timestamp { secs: 0, nanos: 0 },
        },
    }
}

pub open spec fn entries_of(files: Seq<FileView>) -> Seq<EntryView> {
    files.map_values(|file: FileView| entry_of(file))
}

/// The files with several names of two lists are those of each.
pub proof fn lemma_linked_ids_concat(a: Seq<FileView>, b: Seq<FileView>)
    ensures
        linked_ids(a + b) == linked_ids(a).union(linked_ids(b)),
    decreases b.len(),
{
    if b.len() > 0 {
        lemma_linked_ids_concat(a, b.drop_last());
        assert((a + b).drop_last() == a + b.drop_last());
        assert(linked_ids(a + b) =~= linked_ids(a).union(linked_ids(b)));
    } else {
        assert(a + b == a);
        assert(linked_ids(a) =~= linked_ids(a).union(linked_ids(b)));
    }
}

/// Files are counted one after the other: what was seen before counts no more.
pub proof fn lemma_counted_concat(a: Seq<FileView>, b: Seq<FileView>, seen: Set<u128>)
    ensures
        counted(a + b, seen) == counted(a, seen) + counted(b, seen.union(linked_ids(a))),
    decreases b.len(),
{
    if b.len() > 0 {
        lemma_counted_concat(a, b.drop_last(), seen);
        lemma_linked_ids_concat(a, b.drop_last());
        assert((a + b).drop_last() == a + b.drop_last());
        assert(seen.union(linked_ids(a + b.drop_last())) =~= seen.union(linked_ids(a)).union(
            linked_ids(b.drop_last()),
        ));
        assert(counted(a + b, seen) =~= counted(a, seen) + counted(b, seen.union(linked_ids(a))));
    } else {
        assert(a + b == a);
        assert(counted(a, seen) + counted(b, seen.union(linked_ids(a))) =~= counted(a, seen));
    }
}

/// No file is counted under two names, and every file is counted under one: each file
/// in the list is counted itself, or another name of it is, or it was seen before.
pub proof fn lemma_counted_once(files: Seq<FileView>, seen: Set<u128>)
    ensures
        forall|i: int, j: int|
            0 <= i < j < counted(files, seen).len() && (#[trigger] counted(files, seen)[i]).links > 1
                && (#[trigger] counted(files, seen)[j]).links > 1 ==> file_id(
                counted(files, seen)[i],
            ) != file_id(counted(files, seen)[j]),
        forall|i: int|
            0 <= i < counted(files, seen).len() && (#[trigger] counted(files, seen)[i]).links > 1
                ==> linked_ids(files).contains(file_id(counted(files, seen)[i])) && !seen.contains(
                file_id(counted(files, seen)[i]),
            ),
        forall|i: int|
            0 <= i < files.len() && (#[trigger] files[i]).links <= 1 ==> counted(
                files,
                seen,
            ).contains(files[i]),
        forall|id: u128| #[trigger]
            linked_ids(files).contains(id) ==> seen.contains(id) || exists|k: int|
                0 <= k < counted(files, seen).len() && (#[trigger] counted(files, seen)[k]).links
                    > 1 && file_id(counted(files, seen)[k]) == id,
    decreases files.len(),
{
    if files.len() > 0 {
        let earlier = files.drop_last();
        let file = files.last();
        lemma_counted_once(earlier, seen);
        let before = counted(earlier, seen);
        let all = counted(files, seen);
        assert(forall|k: int| 0 <= k < before.len() ==> all[k] == before[k]);
        assert forall|i: int| 0 <= i < files.len() && (#[trigger] files[i]).links <= 1 implies all.contains(
            files[i],
        ) by {
            if i < earlier.len() {
                assert(earlier[i] == files[i]);
                assert(before.contains(files[i]));
                let k = choose|k: int| 0 <= k < before.len() && before[k] == files[i];
                assert(all[k] == files[i]);
            } else {
                assert(all[all.len() - 1] == files[i]);
            }
        }
        assert forall|id: u128| #[trigger] linked_ids(files).contains(id) implies seen.contains(id)
            || exists|k: int|
            0 <= k < all.len() && (#[trigger] all[k]).links > 1 && file_id(all[k]) == id by {
            if linked_ids(earlier).contains(id) {
                if !seen.contains(id) {
                    let k = choose|k: int|
                        0 <= k < before.len() && (#[trigger] before[k]).links > 1 && file_id(
                            before[k],
                        ) == id;
                    assert(all[k] == before[k]);
                }
            } else {
                assert(id == file_id(file));
                if !seen.contains(id) {
                    assert(all[all.len() - 1] == file);
                }
            }
        }
    }
}

fn already_counted(file: &FileFacts, seen: &mut HashSet<u128>) -> (yes: bool)
    ensures
        yes == (file.links > 1 && old(seen)@.contains(file_id(file@))),
        final(seen)@ == if file.links > 1 {
            old(seen)@.insert(file_id(file@))
        } else {
            old(seen)@
        },
{
    broadcast use vstd::std_specs::hash::group_hash_axioms;

    if file.links <= 1 {
        return false;
    }
    let id: u128 = file.device as u128 * 0x1_0000_0000_0000_0000 + file.inode as u128;
    let fresh = seen.insert(id);
    !fresh
}

/// Appends the files in and below a directory to `out`, those of subdirectories
/// first. A file with several names is taken under the first of them; `seen` holds
/// those that were met.
pub fn walk(items: &Vec<Listing>, out: &mut Vec<Entry>, seen: &mut HashSet<u128>)
    ensures
        views(final(out)@) == views(old(out)@) + entries_of(
            counted(files_in(items@), old(seen)@),
        ),
        final(seen)@ == old(seen)@.union(linked_ids(files_in(items@))),
    decreases items,
{
    let ghost start = views(out@);
    let ghost first = seen@;
    let mut i: usize = 0;
    proof {
        assert(start + entries_of(counted(files_below(items@.take(0)), first)) == start);
        assert(first.union(linked_ids(files_below(items@.take(0)))) =~= first);
    }
    while i < items.len()
        invariant
            i <= items@.len(),
            views(out@) == start + entries_of(counted(files_below(items@.take(i as int)), first)),
            seen@ == first.union(linked_ids(files_below(items@.take(i as int)))),
        decreases items@.len() - i,
    {
        let ghost done = files_below(items@.take(i as int));
        assert(items@.take(i + 1).drop_last() == items@.take(i as int));
        assert(items@.take(i + 1).last() == items@[i as int]);
        match &items[i] {
            Listing::Dir(inner) => {
                walk(inner, out, seen);
                proof {
                    let more = files_in(inner@);
                    lemma_counted_concat(done, more, first);
                    lemma_linked_ids_concat(done, more);
                    assert(entries_of(counted(done + more, first)) =~= entries_of(
                        counted(done, first),
                    ) + entries_of(counted(more, first.union(linked_ids(done)))));
                    assert(seen@ =~= first.union(linked_ids(done + more)));
                }
            },
            Listing::File(_) => {
                assert(done + Seq::<FileView>::empty() == done);
            },
        }
        i += 1;
    }
    assert(items@.take(i as int) == items@);
    let ghost inner = files_below(items@);
    let mut k: usize = 0;
    proof {
        assert(inner + own_files(items@.take(0)) == inner);
    }
    while k < items.len()
        invariant
            k <= items@.len(),
            views(out@) == start + entries_of(
                counted(inner + own_files(items@.take(k as int)), first),
            ),
            seen@ == first.union(linked_ids(inner + own_files(items@.take(k as int)))),
        decreases items@.len() - k,
    {
        let ghost done = inner + own_files(items@.take(k as int));
        let ghost before = out@;
        assert(items@.take(k + 1).drop_last() == items@.take(k as int));
        assert(items@.take(k + 1).last() == items@[k as int]);
        match &items[k] {
            Listing::Dir(_) => {},
            Listing::File(file) => {
                let ghost next = inner + own_files(items@.take(k + 1));
                assert(next == done.push(file@));
                assert(next.drop_last() == done);
                let known = already_counted(file, seen);
                assert(seen@ =~= first.union(linked_ids(next)));
                if !known {
                    let modified = match file.modified {
                        Some(time) => time,
                        None => Timestamp { secs: 0, nanos: 0 },
                    };
                    let entry = Entry { path: file.path.clone(), bytes: file.bytes, modified };
                    let ghost e = entry@;
                    out.push(entry);
                    proof {
                        assert(e == entry_of(file@));
                        assert(views(out@) == views(before).push(e));
                        assert(entries_of(counted(next, first)) =~= entries_of(
                            counted(done, first),
                        ).push(e));
                    }
                }
            },
        }
        k += 1;
    }
    assert(items@.take(k as int) == items@);
}

/// The files in several directories, those of the last directory first.
pub open spec fn last_first(listings: Seq<Vec<Listing>>) -> Seq<FileView>
    decreases listings.len(),
{
    if listings.len() == 0 {
        Seq::empty()
    } else {
        files_in(listings.last()@) + last_first(listings.drop_last())
    }
}

/// The files in the output directories, each counted once.
pub fn walk_outputs(listings: &Vec<Vec<Listing>>) -> (files: Vec<Entry>)
    ensures
        views(files@) == entries_of(counted(last_first(listings@), Set::empty())),
{
    // build-dir first: target-dir's final binaries are hardlinks into it, and
    // the first name walked keeps the bytes, so they stay under deps/.
    let ghost mut done = Seq::<FileView>::empty();
    let mut files: Vec<Entry> = Vec::new();
    let mut seen: HashSet<u128> = HashSet::new();
    let mut i: usize = listings.len();
    proof {
        assert(listings@.take(i as int) == listings@);
        assert(last_first(listings@) == done + last_first(listings@.take(i as int)));
        assert(views(files@) == entries_of(counted(done, Set::empty())));
        assert(seen@ =~= linked_ids(done));
    }
    while i > 0
        invariant
            i <= listings@.len(),
            last_first(listings@) == done + last_first(listings@.take(i as int)),
            views(files@) == entries_of(counted(done, Set::empty())),
            seen@ == linked_ids(done),
        decreases i,
    {
        i -= 1;
        let ghost here = files_in(listings@[i as int]@);
        let ghost left = listings@.take(i as int);
        proof {
            assert(listings@.take(i + 1).drop_last() == left);
            assert(listings@.take(i + 1).last() == listings@[i as int]);
            lemma_counted_concat(done, here, Set::empty());
            lemma_linked_ids_concat(done, here);
            assert(Set::<u128>::empty().union(linked_ids(done)) =~= linked_ids(done));
            assert(done + (here + last_first(left)) == (done + here) + last_first(left));
        }
        walk(&listings[i], &mut files, &mut seen);
        proof {
            assert(entries_of(counted(done, Set::empty()) + counted(here, linked_ids(done)))
                == entries_of(counted(done, Set::empty())) + entries_of(
                counted(here, linked_ids(done)),
            ));
            done = done + here;
        }
    }
    assert(done + last_first(listings@.take(0)) == done);
    files
}

// ---------------------------------------------------------------- which crate a file is of
/// Whether what follows the first point of a file's name marks a compiled library.
pub open spec fn is_library_ending(ending: Seq<char>) -> bool {
    ending == "rlib"@ || ending == "rmeta"@ || ending == "so"@ || ending == "a"@ || ending
        == "dylib"@
}

/// The name of an artifact's file up to its first point, without the `lib` before
/// the names of libraries; none where nothing is left.
pub open spec fn stem_of(file: Seq<char>) -> Option<Seq<char>> {
    let (stem, ending) = match cut_at_first(file, "."@) {
        Some(halves) => halves,
        None => (file, Seq::empty()),
    };
    let stem = if is_library_ending(ending) {
        match without_prefix(stem, "lib"@) {
            Some(rest) => rest,
            None => stem,
        }
    } else {
        stem
    };
    if stem.len() > 0 {
        Some(stem)
    } else {
        None
    }
}

/// The name of an artifact's file up to its first point, without the `lib` before
/// the names of libraries.
pub fn artifact_stem(file: &[char]) -> (stem: Option<&[char]>)
    ensures
        stem matches Some(s) ==> stem_of(file@) == Some(s@),
        stem is None ==> stem_of(file@) is None,
{
    let (name, library): (&[char], bool) = match split_once(file, ".") {
        Some((name, ending)) => (
            name,
            spells(ending, "rlib") || spells(ending, "rmeta") || spells(ending, "so") || spells(
                ending,
                "a",
            ) || spells(ending, "dylib"),
        ),
        None => {
            proof {
                reveal_strlit("rlib");
                reveal_strlit("rmeta");
                reveal_strlit("so");
                reveal_strlit("a");
                reveal_strlit("dylib");
                assert("rlib"@.len() > 0 && "rmeta"@.len() > 0 && "so"@.len() > 0 && "a"@.len() > 0
                    && "dylib"@.len() > 0);
                assert(!is_library_ending(Seq::empty()));
            }
            (file, false)
        },
    };
    let stem = if library {
        match strip_prefix(name, "lib") {
            Some(rest) => rest,
            None => name,
        }
    } else {
        name
    };
    if stem.len() > 0 {
        Some(stem)
    } else {
        None
    }
}

/// The texts of the components of a path.
pub open spec fn texts(rel: Seq<Part>) -> Seq<Seq<char>> {
    rel.map_values(|part: Part| part_text(part))
}

/// The first position from `at` on of a text of which `holds` is true.
pub open spec fn first_where(
    all: Seq<Seq<char>>,
    holds: spec_fn(Seq<char>) -> bool,
    at: int,
) -> Option<int>
    decreases all.len() - at,
{
    if !(0 <= at < all.len()) {
        None
    } else if holds(all[at]) {
        Some(at)
    } else {
        first_where(all, holds, at + 1)
    }
}

/// Whether a directory of this name holds artifacts by crate.
pub open spec fn is_artifact_dir(name: Seq<char>) -> bool {
    name == "deps"@ || name == "examples"@ || name == "build"@ || name == "incremental"@ || name
        == ".fingerprint"@
}

/// The text before the last hyphen, which the hash of a build unit follows.
pub open spec fn before_hash(name: Seq<char>) -> Option<Seq<char>> {
    match cut_at_last(name, '-') {
        Some((name, hash)) => Some(name),
        None => None,
    }
}

/// The name of the crate that left the file `rel` in an output directory, as it stands
/// in the file's name: in a directory that holds artifacts by crate, the next component
/// up to its hash; directly in a profile directory, the stem of the file.
pub open spec fn name_in(rel: Seq<Part>) -> Option<Seq<char>> {
    let all = texts(rel);
    match first_where(all, |name: Seq<char>| is_artifact_dir(name), 0) {
        Some(i) => if i + 1 < all.len() {
            if all[i] == "deps"@ || all[i] == "examples"@ {
                match stem_of(all[i + 1]) {
                    Some(stem) => before_hash(stem),
                    None => None,
                }
            } else {
                before_hash(all[i + 1])
            }
        } else {
            None
        },
        None => if all.len() == 2 && all[0] != "package"@ && !(all[1].len() > 0 && all[1][0]
            == '.') {
            stem_of(all[1])
        } else {
            None
        },
    }
}

/// The crate that left the file `rel` in an output directory.
pub open spec fn crate_of(rel: Seq<Part>) -> Option<Seq<char>> {
    match name_in(rel) {
        Some(name) => if name.len() > 0 {
            Some(underscored(name))
        } else {
            None
        },
        None => None,
    }
}

/// A crate goes by a name, and by the one that rustc gives its files: without hyphens.
pub proof fn lemma_crate_of(rel: Seq<Part>)
    ensures
        crate_of(rel) matches Some(name) ==> name.len() > 0 && !name.contains('-'),
{
    if let Some(name) = name_in(rel) {
        lemma_underscored(name);
    }
}

fn named_artifact_dir(name: &str) -> (yes: bool)
    ensures
        yes == is_artifact_dir(name@),
{
    same(name, "deps") || same(name, "examples") || same(name, "build") || same(
        name,
        "incremental",
    ) || same(name, ".fingerprint")
}

fn crate_text(name: &[char]) -> (text: Option<String>)
    ensures
        text matches Some(t) ==> name@.len() > 0 && t@ == underscored(name@),
        text is None ==> name@.len() == 0,
{
    if name.len() > 0 {
        Some(underscore(name))
    } else {
        None
    }
}

/// The crate that left the file `rel` in an output directory; none for a file that
/// belongs to no crate.
pub fn crate_name(rel: &[Component]) -> (name: Option<String>)
    ensures
        name matches Some(n) ==> crate_of(views(rel@)) == Some(n@),
        name is None ==> crate_of(views(rel@)) is None,
{
    let ghost all = texts(views(rel@));
    let ghost holds = |name: Seq<char>| is_artifact_dir(name);
    let mut i: usize = 0;
    while i < rel.len()
        invariant
            i <= rel@.len(),
            all == texts(views(rel@)),
            holds == (|name: Seq<char>| is_artifact_dir(name)),
            first_where(all, holds, 0) == first_where(all, holds, i as int),
        decreases rel@.len() - i,
    {
        let dir = rel[i].text();
        assert(all[i as int] == dir@);
        if named_artifact_dir(dir) {
            if i + 1 >= rel.len() {
                return None;
            }
            assert(all[i + 1] == part_text(rel@[i + 1]@));
            let next = chars_of(rel[i + 1].text());
            let unit: &[char] = if same(dir, "deps") || same(dir, "examples") {
                match artifact_stem(next.as_slice()) {
                    Some(stem) => stem,
                    None => {
                        return None;
                    },
                }
            } else {
                next.as_slice()
            };
            return match rsplit_once(unit, '-') {
                Some((name, hash)) => crate_text(name),
                None => None,
            };
        }
        i += 1;
    }
    if rel.len() != 2 {
        return None;
    }
    assert(all[0] == part_text(rel@[0]@));
    assert(all[1] == part_text(rel@[1]@));
    if same(rel[0].text(), "package") {
        return None;
    }
    let file = chars_of(rel[1].text());
    if file.len() > 0 && file[0] == '.' {
        return None;
    }
    match artifact_stem(file.as_slice()) {
        Some(stem) => crate_text(stem),
        None => None,
    }
}

// ---------------------------------------------------------------- sizes by label
/// The label and size of each file that has a label.
pub open spec fn labelled(
    files: Seq<EntryView>,
    label: spec_fn(EntryView) -> Option<Seq<char>>,
) -> Seq<(Seq<char>, u64)>
    decreases files.len(),
{
    if files.len() == 0 {
        Seq::empty()
    } else {
        let others = labelled(files.drop_last(), label);
        match label(files.last()) {
            Some(text) => others.push((text, files.last().bytes)),
            None => others,
        }
    }
}

/// What a file in the directory `base` counts under: the first component below it,
/// with a slash where that is a directory.
pub open spec fn top_label(file: EntryView, base: Seq<Part>) -> Option<Seq<char>> {
    match below(file.path, base) {
        Some(rel) => if rel.len() == 0 {
            None
        } else if rel.len() == 1 {
            Some(part_text(rel[0]))
        } else {
            Some(part_text(rel[0]).push('/'))
        },
        None => None,
    }
}

/// The files in the directory `base`, each under its label.
pub open spec fn by_top(files: Seq<EntryView>, base: Seq<Part>) -> Seq<(Seq<char>, u64)> {
    labelled(files, |file: EntryView| top_label(file, base))
}

fn label_top(file: &Entry, base: &FilePath) -> (label: Option<String>)
    ensures
        label matches Some(l) ==> top_label(file@, base@) == Some(l@),
        label is None ==> top_label(file@, base@) is None,
{
    match strip_dir(&file.path, base) {
        Some(rel) => {
            assert(views(rel@).len() == rel@.len());
            if rel.len() == 0 {
                return None;
            }
            assert(views(rel@)[0] == rel@[0]@);
            let mut label = rel[0].text().to_owned();
            if rel.len() > 1 {
                label.push('/');
            }
            Some(label)
        },
        None => None,
    }
}

/// The sizes in the directory `base` by what stands directly in it, the largest first.
pub fn breakdown(files: &[Entry], base: &FilePath) -> (rows: Vec<(String, u64)>)
    requires
        sums_fit(by_top(views(files@), base@)),
    ensures
        views(rows@) == grouped(by_top(views(files@), base@)),
{
    let ghost all = views(files@);
    let ghost label = |file: EntryView| top_label(file, base@);
    let mut items: Vec<(String, u64)> = Vec::new();
    let mut i: usize = 0;
    assert(views(items@) == labelled(all.take(0), label));
    while i < files.len()
        invariant
            i <= files@.len(),
            all == views(files@),
            label == (|file: EntryView| top_label(file, base@)),
            views(items@) == labelled(all.take(i as int), label),
        decreases files@.len() - i,
    {
        assert(all.take(i + 1).drop_last() == all.take(i as int));
        assert(all.take(i + 1).last() == files@[i as int]@);
        let ghost before = items@;
        if let Some(text) = label_top(&files[i], base) {
            let ghost item = (text@, files@[i as int].bytes);
            items.push((text, files[i].bytes));
            assert(views(items@) == views(before).push(item));
        }
        i += 1;
    }
    assert(all.take(i as int) == all);
    group(items.as_slice())
}

/// The crate that a file counts under; `(other)` for one in an output directory that
/// belongs to no crate.
pub open spec fn crate_label(file: EntryView, dirs: Seq<Seq<Part>>) -> Option<Seq<char>> {
    match below_closest(file.path, dirs) {
        Some(rel) => match crate_of(rel) {
            Some(name) => Some(name),
            None => Some("(other)"@),
        },
        None => None,
    }
}

/// The files in the output directories, each under its crate or `(other)`.
pub open spec fn by_crate(files: Seq<EntryView>, dirs: Seq<Seq<Part>>) -> Seq<(Seq<char>, u64)> {
    labelled(files, |file: EntryView| crate_label(file, dirs))
}

/// The sizes in the output directories by crate, the largest first.
pub fn largest_crates(files: &[Entry], dirs: &[FilePath]) -> (rows: Vec<(String, u64)>)
    requires
        sums_fit(by_crate(views(files@), views(dirs@))),
    ensures
        views(rows@) == grouped(by_crate(views(files@), views(dirs@))),
{
    let ghost all = views(files@);
    let ghost label = |file: EntryView| crate_label(file, views(dirs@));
    let mut items: Vec<(String, u64)> = Vec::new();
    let mut i: usize = 0;
    assert(views(items@) == labelled(all.take(0), label));
    while i < files.len()
        invariant
            i <= files@.len(),
            all == views(files@),
            label == (|file: EntryView| crate_label(file, views(dirs@))),
            views(items@) == labelled(all.take(i as int), label),
        decreases files@.len() - i,
    {
        assert(all.take(i + 1).drop_last() == all.take(i as int));
        assert(all.take(i + 1).last() == files@[i as int]@);
        let ghost before = items@;
        if let Some(rel) = relative(&files[i].path, dirs) {
            let text = match crate_name(rel) {
                Some(name) => name,
                None => "(other)".to_owned(),
            };
            let ghost item = (text@, files@[i as int].bytes);
            items.push((text, files[i].bytes));
            assert(views(items@) == views(before).push(item));
        }
        i += 1;
    }
    assert(all.take(i as int) == all);
    group(items.as_slice())
}

/// The crate that left a file in the output directories.
pub open spec fn owner(file: EntryView, dirs: Seq<Seq<Part>>) -> Option<Seq<char>> {
    match below_closest(file.path, dirs) {
        Some(rel) => crate_of(rel),
        None => None,
    }
}

/// The files that crates left in the output directories, each under its crate.
pub open spec fn by_owner(files: Seq<EntryView>, dirs: Seq<Seq<Part>>) -> Seq<(Seq<char>, u64)> {
    labelled(files, |file: EntryView| owner(file, dirs))
}

/// The sum of the figures under each label.
pub open spec fn sums_by_label(items: Seq<(Seq<char>, u64)>) -> Map<Seq<char>, u64> {
    Map::new(
        |label: Seq<char>| labels(items).contains(label),
        |label: Seq<char>| sum_of(items, label) as u64,
    )
}

proof fn lemma_sums_by_label_push(items: Seq<(Seq<char>, u64)>, label: Seq<char>, n: u64)
    ensures
        sums_by_label(items.push((label, n))) == sums_by_label(items).insert(
            label,
            (sum_of(items, label) + n) as u64,
        ),
{
    let next = items.push((label, n));
    assert(next.drop_last() == items);
    assert(labels(next) == labels(items).push(label));
    assert forall|l: Seq<char>| labels(next).contains(l) <==> labels(items).contains(l) || l
        == label by {
        if labels(items).contains(l) {
            let k = choose|k: int| 0 <= k < labels(items).len() && labels(items)[k] == l;
            assert(labels(next)[k] == l);
        }
        if l == label {
            assert(labels(next)[items.len() as int] == l);
        }
    }
    assert(sums_by_label(next) =~= sums_by_label(items).insert(
        label,
        (sum_of(items, label) + n) as u64,
    ));
}

/// What each crate left in the output directories, in bytes.
pub fn crate_sizes(files: &[Entry], dirs: &[FilePath]) -> (sizes: StringHashMap<u64>)
    requires
        sums_fit(by_owner(views(files@), views(dirs@))),
    ensures
        sizes@ == sums_by_label(by_owner(views(files@), views(dirs@))),
{
    let ghost all = views(files@);
    let ghost label = |file: EntryView| owner(file, views(dirs@));
    let ghost items = labelled(all, label);
    let mut sizes: StringHashMap<u64> = StringHashMap::new();
    let mut i: usize = 0;
    assert(sizes@ =~= sums_by_label(labelled(all.take(0), label)));
    while i < files.len()
        invariant
            i <= files@.len(),
            all == views(files@),
            label == (|file: EntryView| owner(file, views(dirs@))),
            items == labelled(all, label),
            sums_fit(items),
            sizes@ == sums_by_label(labelled(all.take(i as int), label)),
        decreases files@.len() - i,
    {
        let ghost now = labelled(all.take(i as int), label);
        assert(all.take(i + 1).drop_last() == all.take(i as int));
        assert(all.take(i + 1).last() == files@[i as int]@);
        if let Some(rel) = relative(&files[i].path, dirs) {
            if let Some(name) = crate_name(rel) {
                let bytes: u64 = files[i].bytes;
                proof {
                    lemma_sums_by_label_push(now, name@, bytes);
                    lemma_labelled_sum_grows(all, label, name@, i + 1);
                    assert(now.push((name@, bytes)).drop_last() == now);
                    if !labels(now).contains(name@) {
                        lemma_sum_of_absent(now, name@);
                    }
                }
                let sum: u64 = match sizes.get(name.as_str()) {
                    Some(sum) => *sum + bytes,
                    None => bytes,
                };
                sizes.insert(name, sum);
            }
        }
        i += 1;
    }
    assert(all.take(i as int) == all);
    sizes
}

proof fn lemma_labelled_sum_grows(
    files: Seq<EntryView>,
    label: spec_fn(EntryView) -> Option<Seq<char>>,
    name: Seq<char>,
    n: int,
)
    requires
        0 <= n <= files.len(),
    ensures
        sum_of(labelled(files.take(n), label), name) <= sum_of(labelled(files, label), name),
    decreases files.len() - n,
{
    if n < files.len() {
        lemma_labelled_sum_grows(files, label, name, n + 1);
        assert(files.take(n + 1).drop_last() == files.take(n));
        let now = labelled(files.take(n), label);
        if let Some(text) = label(files[n]) {
            assert(now.push((text, files[n].bytes)).drop_last() == now);
        }
    } else {
        assert(files.take(n) == files);
    }
}

/// The bytes of the files that lie in an output directory.
pub open spec fn bytes_below(files: Seq<EntryView>, dirs: Seq<Seq<Part>>) -> nat
    decreases files.len(),
{
    if files.len() == 0 {
        0
    } else {
        bytes_below(files.drop_last(), dirs) + if below_closest(files.last().path, dirs) is Some {
            files.last().bytes as nat
        } else {
            0
        }
    }
}

/// The rows of the largest crates account for every byte in the output directories.
pub proof fn lemma_crates_account_for_all(files: Seq<EntryView>, dirs: Seq<Seq<Part>>)
    requires
        sums_fit(by_crate(files, dirs)),
    ensures
        total(grouped(by_crate(files, dirs))) == bytes_below(files, dirs),
{
    lemma_grouped_total(by_crate(files, dirs));
    lemma_crate_total(files, dirs);
}

proof fn lemma_crate_total(files: Seq<EntryView>, dirs: Seq<Seq<Part>>)
    ensures
        total(by_crate(files, dirs)) == bytes_below(files, dirs),
    decreases files.len(),
{
    if files.len() > 0 {
        let before = files.drop_last();
        lemma_crate_total(before, dirs);
        if let Some(text) = crate_label(files.last(), dirs) {
            let items = by_crate(files, dirs);
            assert(items.drop_last() == by_crate(before, dirs));
        }
    }
}

// ---------------------------------------------------------------- what could be cleaned up
/// What a file in an output directory could be removed as.
pub enum Bucket {
    Incremental,
    Old,
    Neither,
}

/// What a file could be removed as: anything in an `incremental` directory as such,
/// anything else in an output directory if it is old.
pub open spec fn bucket_of(file: EntryView, dirs: Seq<Seq<Part>>, now: Timestamp) -> Bucket {
    match below_closest(file.path, dirs) {
        Some(rel) => if texts(rel).contains("incremental"@) {
            Bucket::Incremental
        } else if elapsed(file.modified, now) > OLD_AFTER_DAYS * DAY * 1_000_000_000 {
            Bucket::Old
        } else {
            Bucket::Neither
        },
        None => Bucket::Neither,
    }
}

/// The bytes of the files in one bucket.
pub open spec fn bytes_in(
    files: Seq<EntryView>,
    dirs: Seq<Seq<Part>>,
    now: Timestamp,
    bucket: Bucket,
) -> nat
    decreases files.len(),
{
    if files.len() == 0 {
        0
    } else {
        bytes_in(files.drop_last(), dirs, now, bucket) + if bucket_of(files.last(), dirs, now)
            == bucket {
            files.last().bytes as nat
        } else {
            0
        }
    }
}

/// The bytes of all files.
pub open spec fn total_bytes(files: Seq<EntryView>) -> nat
    decreases files.len(),
{
    if files.len() == 0 {
        0
    } else {
        total_bytes(files.drop_last()) + files.last().bytes as nat
    }
}

proof fn lemma_total_bytes_grow(files: Seq<EntryView>, n: int)
    requires
        0 <= n <= files.len(),
    ensures
        total_bytes(files.take(n)) <= total_bytes(files),
    decreases files.len() - n,
{
    if n < files.len() {
        lemma_total_bytes_grow(files, n + 1);
        assert(files.take(n + 1).drop_last() == files.take(n));
    } else {
        assert(files.take(n) == files);
    }
}

/// The bytes of all files.
pub fn sum_bytes(files: &[Entry]) -> (sum: u64)
    requires
        total_bytes(views(files@)) <= u64::MAX,
    ensures
        sum == total_bytes(views(files@)),
{
    let ghost all = views(files@);
    let mut sum: u64 = 0;
    let mut i: usize = 0;
    while i < files.len()
        invariant
            i <= files@.len(),
            all == views(files@),
            total_bytes(all) <= u64::MAX,
            sum == total_bytes(all.take(i as int)),
        decreases files@.len() - i,
    {
        proof {
            lemma_total_bytes_grow(all, i + 1);
            assert(all.take(i + 1).drop_last() == all.take(i as int));
            assert(all.take(i + 1).last() == files@[i as int]@);
        }
        sum += files[i].bytes;
        i += 1;
    }
    assert(all.take(i as int) == all);
    sum
}

/// Whether the bytes of all files together are a figure that can be held. Then so is
/// every figure of a report on them.
pub fn total_fits(files: &[Entry]) -> (yes: bool)
    ensures
        yes == (total_bytes(views(files@)) <= u64::MAX),
{
    let ghost all = views(files@);
    let mut sum: u64 = 0;
    let mut i: usize = 0;
    while i < files.len()
        invariant
            i <= files@.len(),
            all == views(files@),
            sum == total_bytes(all.take(i as int)),
        decreases files@.len() - i,
    {
        proof {
            lemma_total_bytes_grow(all, i + 1);
            assert(all.take(i + 1).drop_last() == all.take(i as int));
            assert(all.take(i + 1).last() == files@[i as int]@);
        }
        match sum.checked_add(files[i].bytes) {
            Some(more) => {
                sum = more;
            },
            None => {
                return false;
            },
        }
        i += 1;
    }
    assert(all.take(i as int) == all);
    true
}

/// What has a label is no more than there is.
pub proof fn lemma_labelled_total(
    files: Seq<EntryView>,
    label: spec_fn(EntryView) -> Option<Seq<char>>,
)
    ensures
        total(labelled(files, label)) <= total_bytes(files),
    decreases files.len(),
{
    if files.len() > 0 {
        let before = labelled(files.drop_last(), label);
        lemma_labelled_total(files.drop_last(), label);
        if let Some(text) = label(files.last()) {
            assert(before.push((text, files.last().bytes)).drop_last() == before);
        }
    }
}

/// Where all files together are a figure that can be held, so is the sum under every
/// label.
pub proof fn lemma_sums_fit(files: Seq<EntryView>, label: spec_fn(EntryView) -> Option<Seq<char>>)
    requires
        total_bytes(files) <= u64::MAX,
    ensures
        sums_fit(labelled(files, label)),
{
    let items = labelled(files, label);
    lemma_labelled_total(files, label);
    assert forall|name: Seq<char>| #[trigger] sum_of(items, name) <= u64::MAX by {
        let one = seq![name];
        lemma_sum_over_at_most(items, one);
        assert(one.drop_last() == Seq::<Seq<char>>::empty());
        assert(sum_over(items, one.drop_last()) == 0);
        assert(sum_over(items, one) == sum_of(items, name));
    }
}

/// Every file counts in exactly one bucket, so what could be removed is never more
/// than there is.
pub proof fn lemma_buckets_share_out(files: Seq<EntryView>, dirs: Seq<Seq<Part>>, now: Timestamp)
    ensures
        bytes_in(files, dirs, now, Bucket::Incremental) + bytes_in(files, dirs, now, Bucket::Old)
            + bytes_in(files, dirs, now, Bucket::Neither) == total_bytes(files),
    decreases files.len(),
{
    if files.len() > 0 {
        lemma_buckets_share_out(files.drop_last(), dirs, now);
    }
}

proof fn lemma_bytes_in_grow(
    files: Seq<EntryView>,
    dirs: Seq<Seq<Part>>,
    now: Timestamp,
    bucket: Bucket,
    n: int,
)
    requires
        0 <= n <= files.len(),
    ensures
        bytes_in(files.take(n), dirs, now, bucket) <= bytes_in(files, dirs, now, bucket),
    decreases files.len() - n,
{
    if n < files.len() {
        lemma_bytes_in_grow(files, dirs, now, bucket, n + 1);
        assert(files.take(n + 1).drop_last() == files.take(n));
    } else {
        assert(files.take(n) == files);
    }
}

fn in_incremental(rel: &[Component]) -> (yes: bool)
    ensures
        yes == texts(views(rel@)).contains("incremental"@),
{
    let ghost all = texts(views(rel@));
    let mut i: usize = 0;
    while i < rel.len()
        invariant
            i <= rel@.len(),
            all == texts(views(rel@)),
            forall|k: int| 0 <= k < i ==> #[trigger] all[k] != "incremental"@,
        decreases rel@.len() - i,
    {
        assert(all[i as int] == part_text(rel@[i as int]@));
        if same(rel[i].text(), "incremental") {
            assert(all.contains(all[i as int]));
            return true;
        }
        i += 1;
    }
    false
}

/// The bytes in incremental caches, and the bytes of other files that are old.
pub fn cleanup_buckets(files: &[Entry], dirs: &[FilePath], now: Timestamp) -> (bytes: (u64, u64))
    requires
        bytes_in(views(files@), views(dirs@), now, Bucket::Incremental) <= u64::MAX,
        bytes_in(views(files@), views(dirs@), now, Bucket::Old) <= u64::MAX,
    ensures
        bytes.0 == bytes_in(views(files@), views(dirs@), now, Bucket::Incremental),
        bytes.1 == bytes_in(views(files@), views(dirs@), now, Bucket::Old),
{
    let ghost all = views(files@);
    let ghost outputs = views(dirs@);
    let mut incremental: u64 = 0;
    let mut old: u64 = 0;
    let mut i: usize = 0;
    while i < files.len()
        invariant
            i <= files@.len(),
            all == views(files@),
            outputs == views(dirs@),
            bytes_in(all, outputs, now, Bucket::Incremental) <= u64::MAX,
            bytes_in(all, outputs, now, Bucket::Old) <= u64::MAX,
            incremental == bytes_in(all.take(i as int), outputs, now, Bucket::Incremental),
            old == bytes_in(all.take(i as int), outputs, now, Bucket::Old),
        decreases files@.len() - i,
    {
        proof {
            assert(all.take(i + 1).drop_last() == all.take(i as int));
            assert(all.take(i + 1).last() == files@[i as int]@);
            lemma_bytes_in_grow(all, outputs, now, Bucket::Incremental, i + 1);
            lemma_bytes_in_grow(all, outputs, now, Bucket::Old, i + 1);
        }
        if let Some(rel) = relative(&files[i].path, dirs) {
            if in_incremental(rel) {
                incremental += files[i].bytes;
            } else if nanos_between(files[i].modified, now) > (OLD_AFTER_DAYS * DAY) as u128
                * 1_000_000_000 {
                old += files[i].bytes;
            }
        }
        i += 1;
    }
    assert(all.take(i as int) == all);
    (incremental, old)
}

// ---------------------------------------------------------------- orphans
/// Whether `name` only looks like the name of a crate.
pub open spec fn is_pseudo(name: Seq<char>) -> bool {
    name == "(other)"@ || name == "build_script_build"@ || name == "build_script_main"@
}

/// Whether nothing in the dependency graph accounts for artifacts named `name`.
pub fn is_orphan(name: &str, known: &StringHashSet) -> (yes: bool)
    ensures
        yes == (!known@.contains(name@) && !is_pseudo(name@)),
{
    !known.contains(name) && !(same(name, "(other)") || same(name, "build_script_build") || same(
        name,
        "build_script_main",
    ))
}

/// The package that a line of Cargo.lock names, as rustc names files.
pub open spec fn locked_name(line: Seq<char>) -> Option<Seq<char>> {
    match without_prefix(trimmed(line), "name = "@) {
        Some(rest) => Some(underscored(unquoted(trimmed(rest)))),
        None => None,
    }
}

/// Whether some line of the lockfile names the package `name`.
pub open spec fn is_locked(lock: Seq<char>, name: Seq<char>) -> bool {
    exists|i: int| 0 <= i < lines(lock).len() && locked_name(#[trigger] lines(lock)[i]) == Some(name)
}

// Cargo.lock alone is not enough: it lists package names, while target/ is named
// after lib targets, and the two differ (md-5 builds md5, rustls-webpki builds
// webpki). Full metadata carries both, so the orphan section requires it —
// without it there is no section rather than a wrong one.
/// The names that artifacts may carry: those of the metadata, and those that the
/// lockfile `lock` has, if there is one.
pub fn known_crates(lock: Option<&str>, meta: &Metadata) -> (known: StringHashSet)
    ensures
        forall|name: Seq<char>| #[trigger]
            known@.contains(name) <==> meta@.artifact_names().contains(name) || (lock matches Some(
                text,
            ) && is_locked(text@, name)),
{
    let mut known = StringHashSet::new();
    let names = meta.artifact_names();
    let ghost all = meta@.artifact_names();
    let mut i: usize = 0;
    while i < names.len()
        invariant
            i <= names@.len(),
            views(names@) == all,
            forall|name: Seq<char>| #[trigger]
                known@.contains(name) <==> exists|k: int| 0 <= k < i && #[trigger] all[k] == name,
        decreases names@.len() - i,
    {
        let ghost before = known@;
        assert(all[i as int] == names@[i as int]@);
        known.insert(names[i].clone());
        assert forall|name: Seq<char>| #[trigger] known@.contains(name) <==> exists|k: int|
            0 <= k < i + 1 && #[trigger] all[k] == name by {
            if known@.contains(name) {
                if before.contains(name) {
                    let k = choose|k: int| 0 <= k < i && #[trigger] all[k] == name;
                    assert(all[k] == name);
                } else {
                    assert(all[i as int] == name);
                }
            }
            if exists|k: int| 0 <= k < i + 1 && #[trigger] all[k] == name {
                let k = choose|k: int| 0 <= k < i + 1 && #[trigger] all[k] == name;
                if k < i {
                    assert(before.contains(name));
                }
            }
        }
        i += 1;
    }
    assert forall|name: Seq<char>| #[trigger] known@.contains(name) <==> all.contains(name) by {}
    match lock {
        Some(text) => {
            let chars = chars_of(text);
            let found = split_lines(chars.as_slice());
            let ghost listed = lines(text@);
            let mut k: usize = 0;
            while k < found.len()
                invariant
                    k <= found@.len(),
                    views(found@) == listed,
                    listed == lines(text@),
                    all == meta@.artifact_names(),
                    forall|name: Seq<char>| #[trigger]
                        known@.contains(name) <==> all.contains(name) || exists|m: int|
                            0 <= m < k && locked_name(#[trigger] listed[m]) == Some(name),
                decreases found@.len() - k,
            {
                let ghost before = known@;
                assert(listed[k as int] == found@[k as int]@);
                if let Some(rest) = strip_prefix(trim(found[k]), "name = ") {
                    let name = underscore(trim_quotes(trim(rest)));
                    assert(locked_name(listed[k as int]) == Some(name@));
                    known.insert(name);
                }
                assert forall|name: Seq<char>| #[trigger] known@.contains(name) <==> all.contains(
                    name,
                ) || exists|m: int|
                    0 <= m < k + 1 && locked_name(#[trigger] listed[m]) == Some(name) by {
                    if known@.contains(name) && !all.contains(name) {
                        if before.contains(name) {
                            let m = choose|m: int|
                                0 <= m < k && locked_name(#[trigger] listed[m]) == Some(name);
                            assert(locked_name(listed[m]) == Some(name));
                        } else {
                            assert(locked_name(listed[k as int]) == Some(name));
                        }
                    }
                    if exists|m: int|
                        0 <= m < k + 1 && locked_name(#[trigger] listed[m]) == Some(name) {
                        let m = choose|m: int|
                            0 <= m < k + 1 && locked_name(#[trigger] listed[m]) == Some(name);
                        if m < k {
                            assert(before.contains(name));
                        }
                    }
                    if all.contains(name) {
                        assert(before.contains(name));
                    }
                }
                k += 1;
            }
            known
        },
        None => known,
    }
}

// ---------------------------------------------------------------- builds
/// The component below `.fingerprint`, which names a build unit.
pub open spec fn unit_part(rel: Seq<Part>) -> Option<Part> {
    match first_where(texts(rel), |name: Seq<char>| name == ".fingerprint"@, 0) {
        Some(i) => if i + 1 < rel.len() {
            Some(rel[i + 1])
        } else {
            None
        },
        None => None,
    }
}

/// The crate and the hash of the build unit whose fingerprint the file belongs to.
pub open spec fn unit_of(file: EntryView, dirs: Seq<Seq<Part>>) -> Option<(Seq<char>, Seq<char>)> {
    match below_closest(file.path, dirs) {
        Some(rel) => match unit_part(rel) {
            Some(part) => match cut_at_last(part_text(part), '-') {
                Some((name, hash)) => Some((underscored(name), hash)),
                None => None,
            },
            None => None,
        },
        None => None,
    }
}

/// The build units that the files belong to, one for each file that has one.
pub open spec fn units(files: Seq<EntryView>, dirs: Seq<Seq<Part>>) -> Seq<(Seq<char>, Seq<char>)>
    decreases files.len(),
{
    if files.len() == 0 {
        Seq::empty()
    } else {
        let others = units(files.drop_last(), dirs);
        match unit_of(files.last(), dirs) {
            Some(unit) => others.push(unit),
            None => others,
        }
    }
}

/// Each of `found` counted once, under its crate.
pub open spec fn ones(found: Seq<(Seq<char>, Seq<char>)>) -> Seq<(Seq<char>, u64)> {
    found.map_values(|unit: (Seq<char>, Seq<char>)| (unit.0, 1u64))
}

/// The rows of crates that were built more than [`MANY_BUILDS`] times.
pub open spec fn many(rows: Seq<(Seq<char>, u64)>) -> Seq<(Seq<char>, usize)>
    decreases rows.len(),
{
    if rows.len() == 0 {
        Seq::empty()
    } else {
        let others = many(rows.drop_last());
        if rows.last().1 > MANY_BUILDS {
            others.push((rows.last().0, rows.last().1 as usize))
        } else {
            others
        }
    }
}

/// The crates with many build units, and how many: the most first.
pub open spec fn counts(files: Seq<EntryView>, dirs: Seq<Seq<Part>>) -> Seq<(Seq<char>, usize)> {
    many(grouped(ones(distinct(units(files, dirs)))))
}

/// The hashes of the units of one crate.
pub open spec fn hashes(found: Seq<(Seq<char>, Seq<char>)>, name: Seq<char>) -> Seq<Seq<char>>
    decreases found.len(),
{
    if found.len() == 0 {
        Seq::empty()
    } else {
        let others = hashes(found.drop_last(), name);
        if found.last().0 == name {
            others.push(found.last().1)
        } else {
            others
        }
    }
}

proof fn lemma_hashes(found: Seq<(Seq<char>, Seq<char>)>, name: Seq<char>)
    ensures
        forall|hash: Seq<char>| #[trigger]
            hashes(found, name).contains(hash) <==> found.contains((name, hash)),
    decreases found.len(),
{
    if found.len() > 0 {
        let before = found.drop_last();
        let last = found.last();
        lemma_hashes(before, name);
        let others = hashes(before, name);
        assert forall|hash: Seq<char>| #[trigger]
            hashes(found, name).contains(hash) <==> found.contains((name, hash)) by {
            if found.contains((name, hash)) {
                let k = choose|k: int| 0 <= k < found.len() && found[k] == (name, hash);
                if k < before.len() {
                    assert(before[k] == (name, hash));
                    assert(before.contains((name, hash)));
                    assert(others.contains(hash));
                    let m = choose|m: int| 0 <= m < others.len() && others[m] == hash;
                    assert(hashes(found, name)[m] == hash);
                } else {
                    assert(hashes(found, name)[others.len() as int] == hash);
                }
            }
            if hashes(found, name).contains(hash) {
                let m = choose|m: int|
                    0 <= m < hashes(found, name).len() && hashes(found, name)[m] == hash;
                if m < others.len() {
                    assert(others[m] == hash);
                    assert(others.contains(hash));
                    let k = choose|k: int| 0 <= k < before.len() && before[k] == (name, hash);
                    assert(found[k] == (name, hash));
                } else {
                    assert(found[found.len() - 1] == (name, hash));
                }
            }
        }
    }
}

/// The count of a crate is the number of different hashes that its units have.
pub proof fn lemma_counts_hashes(found: Seq<(Seq<char>, Seq<char>)>, name: Seq<char>)
    ensures
        sum_of(ones(distinct(found)), name) == distinct(hashes(found, name)).len(),
    decreases found.len(),
{
    if found.len() > 0 {
        let before = found.drop_last();
        let last = found.last();
        lemma_counts_hashes(before, name);
        lemma_distinct(before);
        lemma_distinct(hashes(before, name));
        lemma_hashes(before, name);
        let old_hashes = hashes(before, name);
        if last.0 == name {
            assert(hashes(found, name).drop_last() == old_hashes);
        }
        if !distinct(before).contains(last) {
            assert(ones(distinct(found)) == ones(distinct(before)).push((last.0, 1u64)));
            assert(ones(distinct(found)).drop_last() == ones(distinct(before)));
        }
    }
}

/// A crate has a row exactly if more than [`MANY_BUILDS`] units of it were built, and
/// the row says how many.
pub proof fn lemma_counts(files: Seq<EntryView>, dirs: Seq<Seq<Part>>, name: Seq<char>, n: usize)
    requires
        files.len() <= usize::MAX,
    ensures
        counts(files, dirs).contains((name, n)) <==> n == distinct(
            hashes(units(files, dirs), name),
        ).len() && n > MANY_BUILDS,
{
    let found = units(files, dirs);
    let items = ones(distinct(found));
    lemma_distinct(found);
    lemma_units_len(files, dirs);
    assert forall|label: Seq<char>| #[trigger] sum_of(items, label) <= items.len() by {
        lemma_ones_sum(distinct(found), label);
    }
    lemma_grouped(items);
    lemma_counts_hashes(found, name);
    let rows = grouped(items);
    assert forall|k: int| 0 <= k < rows.len() implies (#[trigger] rows[k]).1 <= usize::MAX by {
        assert(rows.contains((rows[k].0, rows[k].1)));
        assert(sum_of(items, rows[k].0) <= items.len());
    }
    lemma_many(rows, name, n);
    if n > MANY_BUILDS && n == sum_of(items, name) {
        if !labels(items).contains(name) {
            lemma_sum_of_absent(items, name);
        }
    }
}

/// No file makes more than one unit.
pub proof fn lemma_units_len(files: Seq<EntryView>, dirs: Seq<Seq<Part>>)
    ensures
        units(files, dirs).len() <= files.len(),
    decreases files.len(),
{
    if files.len() > 0 {
        lemma_units_len(files.drop_last(), dirs);
    }
}

/// No crate has more units than there are.
pub proof fn lemma_ones_sum(found: Seq<(Seq<char>, Seq<char>)>, name: Seq<char>)
    ensures
        sum_of(ones(found), name) <= found.len(),
    decreases found.len(),
{
    if found.len() > 0 {
        lemma_ones_sum(found.drop_last(), name);
        assert(ones(found).drop_last() == ones(found.drop_last()));
    }
}

proof fn lemma_many(rows: Seq<(Seq<char>, u64)>, name: Seq<char>, n: usize)
    requires
        forall|k: int| 0 <= k < rows.len() ==> (#[trigger] rows[k]).1 <= usize::MAX,
    ensures
        many(rows).contains((name, n)) <==> rows.contains((name, n as u64)) && n > MANY_BUILDS,
    decreases rows.len(),
{
    if rows.len() > 0 {
        let before = rows.drop_last();
        assert forall|k: int| 0 <= k < before.len() implies (#[trigger] before[k]).1
            <= usize::MAX by {
            assert(before[k] == rows[k]);
        }
        lemma_many(before, name, n);
        let others = many(before);
        if many(rows).contains((name, n)) {
            let k = choose|k: int| 0 <= k < many(rows).len() && many(rows)[k] == (name, n);
            if k < others.len() {
                assert(others[k] == (name, n));
                let m = choose|m: int| 0 <= m < before.len() && before[m] == (name, n as u64);
                assert(rows[m] == (name, n as u64));
            } else {
                assert(rows[rows.len() - 1] == (name, n as u64));
            }
        }
        if rows.contains((name, n as u64)) && n > MANY_BUILDS {
            let m = choose|m: int| 0 <= m < rows.len() && rows[m] == (name, n as u64);
            if m < before.len() {
                assert(before[m] == (name, n as u64));
                assert(others.contains((name, n)));
                let k = choose|k: int| 0 <= k < others.len() && others[k] == (name, n);
                assert(many(rows)[k] == (name, n));
            } else {
                assert(many(rows)[others.len() as int] == (name, n));
            }
        }
    }
}

/// The name and the hash of a unit as one text.
spec fn unit_key(name: Seq<char>, hash: Seq<char>) -> Seq<char> {
    name + seq!['-'] + hash
}

proof fn lemma_unit_key(a: Seq<char>, x: Seq<char>, b: Seq<char>, y: Seq<char>)
    requires
        !a.contains('-'),
        !b.contains('-'),
        unit_key(a, x) == unit_key(b, y),
    ensures
        a == b,
        x == y,
{
    let one = unit_key(a, x);
    assert(one == unit_key(b, y));
    if a.len() < b.len() {
        assert(one[a.len() as int] == '-');
        assert(b[a.len() as int] == '-');
    }
    if b.len() < a.len() {
        assert(one[b.len() as int] == '-');
        assert(unit_key(b, y)[b.len() as int] == '-');
        assert(a[b.len() as int] == '-');
    }
    assert(a == one.take(a.len() as int));
    assert(b == one.take(b.len() as int));
    assert(x == one.skip((a.len() + 1) as int));
    assert(y == one.skip((b.len() + 1) as int));
}

fn fingerprint_unit(rel: &[Component]) -> (unit: Option<&Component>)
    ensures
        unit matches Some(part) ==> unit_part(views(rel@)) == Some(part@),
        unit is None ==> unit_part(views(rel@)) is None,
{
    let ghost all = texts(views(rel@));
    let ghost holds = |name: Seq<char>| name == ".fingerprint"@;
    let mut i: usize = 0;
    while i < rel.len()
        invariant
            i <= rel@.len(),
            all == texts(views(rel@)),
            holds == (|name: Seq<char>| name == ".fingerprint"@),
            first_where(all, holds, 0) == first_where(all, holds, i as int),
        decreases rel@.len() - i,
    {
        assert(all[i as int] == part_text(rel@[i as int]@));
        if same(rel[i].text(), ".fingerprint") {
            if i + 1 < rel.len() {
                assert(views(rel@)[i + 1] == rel@[i + 1]@);
                return Some(&rel[i + 1]);
            }
            return None;
        }
        i += 1;
    }
    None
}

fn build_unit(file: &Entry, dirs: &[FilePath]) -> (unit: Option<(String, String)>)
    ensures
        match unit {
            Some((name, hash)) => unit_of(file@, views(dirs@)) == Some((name@, hash@))
                && !name@.contains('-'),
            None => unit_of(file@, views(dirs@)) is None,
        },
{
    let rel = match relative(&file.path, dirs) {
        Some(rel) => rel,
        None => {
            return None;
        },
    };
    let part = match fingerprint_unit(rel) {
        Some(part) => part,
        None => {
            return None;
        },
    };
    let chars = chars_of(part.text());
    match rsplit_once(chars.as_slice(), '-') {
        Some((name, hash)) => {
            let text = underscore(name);
            proof {
                lemma_underscored(name@);
            }
            Some((text, text_of(hash)))
        },
        None => None,
    }
}

fn pair_key(name: &String, hash: &String) -> (key: String)
    ensures
        key@ == unit_key(name@, hash@),
{
    let mut key = name.clone();
    key.push('-');
    key.append(hash.as_str());
    assert(key@ == unit_key(name@, hash@));
    key
}

fn found_units(files: &[Entry], dirs: &[FilePath]) -> (items: Vec<(String, u64)>)
    ensures
        views(items@) == ones(distinct(units(views(files@), views(dirs@)))),
{
    let ghost all = views(files@);
    let ghost outputs = views(dirs@);
    let mut items: Vec<(String, u64)> = Vec::new();
    let mut seen = StringHashSet::new();
    let mut i: usize = 0;
    assert(views(items@) == ones(distinct(units(all.take(0), outputs))));
    while i < files.len()
        invariant
            i <= files@.len(),
            all == views(files@),
            outputs == views(dirs@),
            views(items@) == ones(distinct(units(all.take(i as int), outputs))),
            forall|name: Seq<char>, hash: Seq<char>|
                !name.contains('-') ==> (#[trigger] seen@.contains(unit_key(name, hash))
                    <==> units(all.take(i as int), outputs).contains((name, hash))),
        decreases files@.len() - i,
    {
        let ghost before = units(all.take(i as int), outputs);
        assert(all.take(i + 1).drop_last() == all.take(i as int));
        assert(all.take(i + 1).last() == files@[i as int]@);
        if let Some((name, hash)) = build_unit(&files[i], dirs) {
            let ghost unit = (name@, hash@);
            let ghost was = seen@;
            let ghost old_items = items@;
            let key = pair_key(&name, &hash);
            proof {
                lemma_distinct(before);
                assert(before.push(unit).drop_last() == before);
            }
            if !seen.contains(key.as_str()) {
                seen.insert(key);
                items.push((name, 1));
                assert(views(items@) == views(old_items).push((unit.0, 1u64)));
                assert(ones(distinct(before).push(unit)) == ones(distinct(before)).push(
                    (unit.0, 1u64),
                ));
            }
            assert forall|name: Seq<char>, hash: Seq<char>| !name.contains('-') implies (
            #[trigger] seen@.contains(unit_key(name, hash)) <==> before.push(unit).contains(
                (name, hash),
            )) by {
                if before.push(unit).contains((name, hash)) {
                    let k = choose|k: int|
                        0 <= k < before.push(unit).len() && before.push(unit)[k] == (name, hash);
                    if k < before.len() {
                        assert(before[k] == (name, hash));
                        assert(before.contains((name, hash)));
                        assert(was.contains(unit_key(name, hash)));
                    }
                }
                if seen@.contains(unit_key(name, hash)) {
                    if was.contains(unit_key(name, hash)) {
                        let k = choose|k: int| 0 <= k < before.len() && before[k] == (name, hash);
                        assert(before.push(unit)[k] == (name, hash));
                    } else {
                        lemma_unit_key(name, hash, unit.0, unit.1);
                        assert(before.push(unit)[before.len() as int] == (name, hash));
                    }
                }
            }
        }
        i += 1;
    }
    assert(all.take(i as int) == all);
    items
}

/// How many build units each crate has, for those that have many: the most first,
/// equal counts by name.
pub fn build_counts(files: &[Entry], dirs: &[FilePath]) -> (rows: Vec<(String, usize)>)
    ensures
        views(rows@) == counts(views(files@), views(dirs@)),
{
    let items = found_units(files, dirs);
    let total: usize = items.len();
    let ghost found = distinct(units(views(files@), views(dirs@)));
    assert(items@.len() == ones(found).len()) by {
        assert(views(items@).len() == items@.len());
    }
    assert forall|label: Seq<char>| #[trigger] sum_of(ones(found), label) <= total by {
        lemma_ones_sum(found, label);
    }
    let grouped_rows = group(items.as_slice());
    let ghost all = views(grouped_rows@);
    proof {
        lemma_grouped(ones(found));
        assert forall|k: int| 0 <= k < all.len() implies (#[trigger] all[k]).1 <= usize::MAX by {
            assert(all.contains((all[k].0, all[k].1)));
            assert(sum_of(ones(found), all[k].0) <= total);
        }
    }
    let mut rows: Vec<(String, usize)> = Vec::new();
    let mut i: usize = 0;
    assert(views(rows@) == many(all.take(0)));
    while i < grouped_rows.len()
        invariant
            i <= grouped_rows@.len(),
            all == views(grouped_rows@),
            forall|k: int| 0 <= k < all.len() ==> (#[trigger] all[k]).1 <= usize::MAX,
            views(rows@) == many(all.take(i as int)),
        decreases grouped_rows@.len() - i,
    {
        assert(all.take(i + 1).drop_last() == all.take(i as int));
        assert(all.take(i + 1).last() == all[i as int]);
        assert(all[i as int] == grouped_rows@[i as int]@);
        let ghost before = rows@;
        if grouped_rows[i].1 > MANY_BUILDS {
            let n: usize = grouped_rows[i].1 as usize;
            rows.push((grouped_rows[i].0.clone(), n));
            assert(views(rows@) == views(before).push((all[i as int].0, n)));
        }
        i += 1;
    }
    assert(all.take(i as int) == all);
    rows
}

// ---------------------------------------------------------------- output directories
/// A directory that Cargo writes to.
#[derive(Clone, Copy, Debug, PartialEq, Eq, Structural)]
pub enum Output {
    Target,
    Build,
}

/// The directories to look at: the target directory, and the build directory where it
/// is set elsewhere. Of two nested ones the outer holds the inner.
pub open spec fn outputs(target: Seq<Part>, build: Seq<Part>) -> Seq<Output> {
    if below(build, target) is Some {
        seq![Output::Target]
    } else if below(target, build) is Some {
        seq![Output::Build]
    } else {
        seq![Output::Target, Output::Build]
    }
}

/// Whatever lies in the target or the build directory lies in one of [`outputs`], and
/// none of those lies in another.
pub proof fn lemma_outputs(target: Seq<Part>, build: Seq<Part>, path: Seq<Part>)
    requires
        below(path, target) is Some || below(path, build) is Some,
    ensures
        outputs(target, build).contains(Output::Target) && below(path, target) is Some || outputs(
            target,
            build,
        ).contains(Output::Build) && below(path, build) is Some,
        outputs(target, build).len() == 2 ==> below(build, target) is None && below(target, build)
            is None,
{
    let all = outputs(target, build);
    if below(build, target) is Some {
        assert(all[0] == Output::Target);
        if below(path, build) is Some {
            assert(path.take(target.len() as int) == path.take(build.len() as int).take(
                target.len() as int,
            ));
        }
    } else if below(target, build) is Some {
        assert(all[0] == Output::Build);
        if below(path, target) is Some {
            assert(path.take(build.len() as int) == path.take(target.len() as int).take(
                build.len() as int,
            ));
        }
    } else {
        assert(all[0] == Output::Target);
        assert(all[1] == Output::Build);
    }
}

/// The directories Cargo writes to: target-dir, plus build-dir when it is set elsewhere.
pub fn output_dirs(target: &FilePath, build: &FilePath) -> (dirs: Vec<Output>)
    ensures
        dirs@ == outputs(target@, build@),
{
    if build.starts_with(target) {
        vec![Output::Target]
    } else if target.starts_with(build) {
        vec![Output::Build]
    } else {
        vec![Output::Target, Output::Build]
    }
}

} // verus!
