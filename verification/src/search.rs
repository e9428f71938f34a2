//! Whether the source of a package names a crate.

use crate::text::{
    chars_of, find_from, index_from, lemma_index_from, occurs_at, same, strip_prefix, strip_suffix,
    trim_end, trim_start, trimmed_end, trimmed_start, without_prefix, without_suffix,
};
use vstd::prelude::*;
use vstd::slice::slice_subrange;

verus! {

// ---------------------------------------------------------------- naming a crate
/// Whether `c` may stand in an identifier.
pub open spec fn is_ident(c: char) -> bool {
    ('a' <= c && c <= 'z') || ('A' <= c && c <= 'Z') || ('0' <= c && c <= '9') || c == '_'
}

/// Whether `before` ends in `word`, and not in a longer identifier.
pub open spec fn ends_in_word(before: Seq<char>, word: Seq<char>) -> bool {
    match without_suffix(before, word) {
        Some(rest) => rest.len() == 0 || !is_ident(rest.last()),
        None => false,
    }
}

/// Whether the text at `at` is an identifier of its own.
pub open spec fn stands_alone(source: Seq<char>, ident: Seq<char>, at: int) -> bool {
    !(at > 0 && is_ident(source[at - 1])) && !(at + ident.len() < source.len() && is_ident(
        source[at + ident.len()],
    ))
}

/// Whether the identifier at `at` names a crate: `name::`, `use name` or
/// `extern crate name`.
pub open spec fn names_crate(source: Seq<char>, ident: Seq<char>, at: int) -> bool {
    let before = trimmed_end(source.take(at));
    let after = trimmed_start(source.skip(at + ident.len()));
    stands_alone(source, ident, at) && (without_prefix(after, "::"@) is Some || ends_in_word(
        before,
        "use"@,
    ) || (ends_in_word(before, "crate"@) && without_suffix(
        trimmed_end(before.take(before.len() - 5)),
        "extern"@,
    ) is Some))
}

/// Where to look on after a match at `at`.
pub open spec fn past_match(ident: Seq<char>, at: int) -> int {
    if ident.len() == 0 {
        at + 1
    } else {
        at + ident.len()
    }
}

/// Whether one of the matches from `from` on names a crate. Matches do not overlap:
/// the next is looked for behind the one before.
pub open spec fn used_from(source: Seq<char>, ident: Seq<char>, from: int) -> bool
    decreases source.len() + 1 - from,
{
    match index_from(source, ident, from) {
        Some(at) => if from <= at && at + ident.len() <= source.len() {
            names_crate(source, ident, at) || used_from(source, ident, past_match(ident, at))
        } else {
            false
        },
        None => false,
    }
}

/// An identifier is used exactly if it names a crate wherever it occurs: what the
/// search steps over could never count.
pub proof fn lemma_used(source: Seq<char>, ident: Seq<char>)
    requires
        ident.len() > 0,
        forall|i: int| 0 <= i < ident.len() ==> is_ident(#[trigger] ident[i]),
    ensures
        used_from(source, ident, 0) <==> exists|at: int| #[trigger]
            occurs_at(source, ident, at) && names_crate(source, ident, at),
{
    lemma_used_from(source, ident, 0);
    if exists|at: int| #[trigger] occurs_at(source, ident, at) && names_crate(source, ident, at) {
        let at = choose|at: int| #[trigger]
            occurs_at(source, ident, at) && names_crate(source, ident, at);
        assert(0 <= at && occurs_at(source, ident, at));
    }
}

proof fn lemma_used_from(source: Seq<char>, ident: Seq<char>, from: int)
    requires
        0 <= from,
        ident.len() > 0,
        forall|i: int| 0 <= i < ident.len() ==> is_ident(#[trigger] ident[i]),
    ensures
        used_from(source, ident, from) <==> exists|at: int|
            from <= at && #[trigger] occurs_at(source, ident, at) && names_crate(source, ident, at),
    decreases source.len() + 1 - from,
{
    if from <= source.len() {
        lemma_index_from(source, ident, from);
        match index_from(source, ident, from) {
            Some(first) => {
                let next = past_match(ident, first);
                lemma_used_from(source, ident, next);
                if exists|at: int|
                    from <= at && #[trigger] occurs_at(source, ident, at) && names_crate(
                        source,
                        ident,
                        at,
                    ) {
                    let at = choose|at: int|
                        from <= at && #[trigger] occurs_at(source, ident, at) && names_crate(
                            source,
                            ident,
                            at,
                        );
                    if first < at < next {
                        assert(source.subrange(first, first + ident.len())[at - 1 - first]
                            == source[at - 1]);
                        assert(is_ident(ident[at - 1 - first]));
                    }
                }
            },
            None => {},
        }
    } else {
        assert forall|at: int| from <= at implies !#[trigger] occurs_at(source, ident, at) by {}
    }
}

fn may_stand_in_ident(c: char) -> (yes: bool)
    ensures
        yes == is_ident(c),
{
    ('a' <= c && c <= 'z') || ('A' <= c && c <= 'Z') || ('0' <= c && c <= '9') || c == '_'
}

fn word_before(before: &[char], word: &str) -> (yes: bool)
    ensures
        yes == ends_in_word(before@, word@),
{
    match strip_suffix(before, word) {
        Some(rest) => rest.len() == 0 || !may_stand_in_ident(rest[rest.len() - 1]),
        None => false,
    }
}

fn names_at(source: &[char], ident: &[char], at: usize) -> (yes: bool)
    requires
        at + ident@.len() <= source@.len(),
    ensures
        yes == names_crate(source@, ident@, at as int),
{
    let total: usize = source.len();
    let end: usize = at + ident.len();
    if (at > 0 && may_stand_in_ident(source[at - 1])) || (end < total && may_stand_in_ident(
        source[end],
    )) {
        return false;
    }
    let head = slice_subrange(source, 0, at);
    let tail = slice_subrange(source, end, total);
    assert(head@ == source@.take(at as int));
    assert(tail@ == source@.skip(end as int));
    let before = trim_end(head);
    let after = trim_start(tail);
    if strip_prefix(after, "::").is_some() || word_before(before, "use") {
        return true;
    }
    if !word_before(before, "crate") {
        return false;
    }
    proof {
        reveal_strlit("crate");
    }
    let rest = slice_subrange(before, 0, before.len() - 5);
    assert(rest@ == before@.take(before@.len() - 5));
    strip_suffix(trim_end(rest), "extern").is_some()
}

// A text search, the same approach as cargo-machete. It cannot see a crate that is
// only linked (`-sys`) or only enables a feature, which is what the ignore list is
// for. A real answer needs the compiler.
/// Whether `source` names the crate `ident`.
pub fn uses(source: &str, ident: &str) -> (yes: bool)
    ensures
        yes == used_from(source@, ident@, 0),
{
    let text = chars_of(source);
    let part = chars_of(ident);
    let total: usize = text.len();
    let mut from: usize = 0;
    loop
        invariant
            text@ == source@,
            part@ == ident@,
            total == text@.len(),
            from <= total,
            used_from(source@, ident@, 0) == used_from(source@, ident@, from as int),
        decreases total - from,
    {
        match find_from(text.as_slice(), part.as_slice(), from) {
            Some(at) => {
                proof {
                    lemma_index_from(source@, ident@, from as int);
                }
                if names_at(text.as_slice(), part.as_slice(), at) {
                    return true;
                }
                if part.len() > 0 {
                    from = at + part.len();
                } else if at < total {
                    from = at + 1;
                } else {
                    assert(!used_from(source@, ident@, total + 1));
                    return false;
                }
            },
            None => {
                return false;
            },
        }
    }
}

// ---------------------------------------------------------------- the source of a package
/// What stands in a directory of a package.
pub enum Source {
    Dir {
        name: String,
        /// Whether the directory holds a manifest of its own.
        nested: bool,
        items: Vec<Source>,
    },
    File {
        name: String,
        /// What the file holds, if it can be read as text.
        text: Option<String>,
    },
}

/// Whether the source of a package goes on in one of its directories: not in build
/// output, hidden directories and nested packages, which have their own dependencies.
pub open spec fn is_searched(name: Seq<char>, nested: bool) -> bool {
    !((name.len() > 0 && name[0] == '.') || name == "target"@ || nested)
}

/// Whether a file of this name is source.
pub open spec fn is_source(name: Seq<char>) -> bool {
    without_suffix(name, ".rs"@) is Some
}

/// The source in a directory: every source file in and below it, each ending in a
/// line break.
pub open spec fn source_in(items: Seq<Source>) -> Seq<char>
    decreases items,
{
    if items.len() == 0 {
        Seq::empty()
    } else {
        source_in(items.drop_last()) + match items.last() {
            Source::Dir { name, nested, items } => if is_searched(name@, nested) {
                source_in(items@)
            } else {
                Seq::empty()
            },
            Source::File { name, text } => match text {
                Some(text) => if is_source(name@) {
                    text@.push('\n')
                } else {
                    Seq::empty()
                },
                None => Seq::empty(),
            },
        }
    }
}

/// Whether to look for source in a directory called `name`.
pub fn searches(name: &str, nested: bool) -> (yes: bool)
    ensures
        yes == is_searched(name@, nested),
{
    let chars = chars_of(name);
    let hidden = chars.len() > 0 && chars[0] == '.';
    !(hidden || same(name, "target") || nested)
}

/// Whether to read the file called `name` as source.
pub fn reads(name: &str) -> (yes: bool)
    ensures
        yes == is_source(name@),
{
    let chars = chars_of(name);
    strip_suffix(chars.as_slice(), ".rs").is_some()
}

fn collect_sources(items: &Vec<Source>, text: &mut String)
    ensures
        final(text)@ == old(text)@ + source_in(items@),
    decreases items,
{
    let ghost before = text@;
    let mut i: usize = 0;
    assert(before + source_in(items@.take(0)) == before);
    while i < items.len()
        invariant
            i <= items@.len(),
            text@ == before + source_in(items@.take(i as int)),
        decreases items@.len() - i,
    {
        assert(items@.take(i + 1).drop_last() == items@.take(i as int));
        assert(items@.take(i + 1).last() == items@[i as int]);
        let ghost so_far = text@;
        match &items[i] {
            Source::Dir { name, nested, items: inner } => {
                if searches(name.as_str(), *nested) {
                    collect_sources(inner, text);
                }
            },
            Source::File { name, text: held } => {
                if reads(name.as_str()) {
                    if let Some(held) = held {
                        text.append(held.as_str());
                        text.push('\n');
                        assert(text@ == so_far + held@.push('\n'));
                    }
                }
            },
        }
        assert(text@ == before + source_in(items@.take(i + 1)));
        i += 1;
    }
    assert(items@.take(i as int) == items@);
}

/// Every source file of one package, one after the other.
pub fn rust_sources(items: &Vec<Source>) -> (text: String)
    ensures
        text@ == source_in(items@),
{
    let mut text = String::new();
    collect_sources(items, &mut text);
    assert(text@ == source_in(items@));
    text
}

} // verus!
