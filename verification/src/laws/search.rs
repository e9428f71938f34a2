//! Laws of searching source for the name of a crate.

use crate::laws::text::{
    all_space, lemma_gap_after, lemma_gap_before, lemma_prefix, lemma_suffix, lemma_trimmed_end,
    lemma_trimmed_start,
};
use crate::search::{ends_in_word, is_ident, lemma_used, names_crate, source_in, used_from, Source};
use crate::text::{occurs_at, trimmed_end, trimmed_start, without_prefix, without_suffix};
use vstd::prelude::*;

verus! {

/// Whether `c` is one of the characters that Rust's ASCII identifiers are made of.
pub open spec fn in_word(c: char) -> bool {
    ('a' <= c && c <= 'z') || ('A' <= c && c <= 'Z') || ('0' <= c && c <= '9') || c == '_'
}

/// Whether `ident` is an ASCII identifier.
pub open spec fn is_word(ident: Seq<char>) -> bool {
    ident.len() > 0 && forall|i: int| 0 <= i < ident.len() ==> in_word(#[trigger] ident[i])
}

/// Every occurrence that a letter, a digit or an underscore touches is part of another
/// identifier: a crate that occurs only so is not used.
pub proof fn lemma_part_of_another_word(source: Seq<char>, ident: Seq<char>)
    requires
        is_word(ident),
        forall|at: int| #[trigger]
            occurs_at(source, ident, at) ==> {
                ||| at > 0 && (('a' <= source[at - 1] && source[at - 1] <= 'z') || ('A' <= source[at
                    - 1] && source[at - 1] <= 'Z') || ('0' <= source[at - 1] && source[at - 1]
                    <= '9') || source[at - 1] == '_')
                ||| at + ident.len() < source.len() && {
                    let next = source[at + ident.len()];
                    ('a' <= next && next <= 'z') || ('A' <= next && next <= 'Z') || ('0' <= next
                        && next <= '9') || next == '_'
                }
            },
    ensures
        !used_from(source, ident, 0),
{
    assert forall|i: int| 0 <= i < ident.len() implies is_ident(#[trigger] ident[i]) by {
        assert(in_word(ident[i]));
    }
    lemma_used(source, ident);
}

/// What stands before a name that is used: nothing of the same identifier, and white
/// space after `use` or `extern crate`, where it is not followed by a path.
pub open spec fn after_use(head: Seq<char>, front: Seq<char>, gap: Seq<char>) -> bool {
    head == front + "use"@ + gap && all_space(gap) && (front.len() == 0 || !in_word(front.last()))
}

/// Whether `head` is `front` and `extern crate` with white space after each word.
pub open spec fn after_extern_crate(
    head: Seq<char>,
    front: Seq<char>,
    between: Seq<char>,
    gap: Seq<char>,
) -> bool {
    &&& head == front + "extern"@ + between + "crate"@ + gap
    &&& all_space(between)
    &&& all_space(gap)
    &&& between.len() > 0
}

/// Whether a path goes on in `tail`.
pub open spec fn before_path(tail: Seq<char>, gap: Seq<char>, rest: Seq<char>) -> bool {
    tail == gap + "::"@ + rest && all_space(gap)
}

/// Whether a name between `head` and `tail` is the name of a crate.
pub open spec fn named_between(head: Seq<char>, tail: Seq<char>) -> bool {
    &&& head.len() == 0 || !in_word(head.last())
    &&& tail.len() == 0 || !in_word(tail[0])
    &&& {
        ||| exists|gap: Seq<char>, rest: Seq<char>| before_path(tail, gap, rest)
        ||| exists|front: Seq<char>, gap: Seq<char>| after_use(head, front, gap)
        ||| exists|front: Seq<char>, between: Seq<char>, gap: Seq<char>|
            after_extern_crate(head, front, between, gap)
    }
}

/// Whether `source` is cut around an identifier that names a crate.
pub open spec fn named_at(
    source: Seq<char>,
    ident: Seq<char>,
    head: Seq<char>,
    tail: Seq<char>,
) -> bool {
    source == head + ident + tail && named_between(head, tail)
}

/// A crate is used exactly if the source can be cut around its name so that the name is
/// a word of its own, and is followed by `::` or preceded by `use` or `extern crate`.
pub proof fn lemma_used_is_named(source: Seq<char>, ident: Seq<char>)
    requires
        is_word(ident),
    ensures
        used_from(source, ident, 0) <==> exists|head: Seq<char>, tail: Seq<char>|
            named_at(source, ident, head, tail),
{
    assert forall|i: int| 0 <= i < ident.len() implies is_ident(#[trigger] ident[i]) by {
        assert(in_word(ident[i]));
    }
    lemma_used(source, ident);
    if used_from(source, ident, 0) {
        let at = choose|at: int| #[trigger]
            occurs_at(source, ident, at) && names_crate(source, ident, at);
        let head = source.take(at);
        let tail = source.skip(at + ident.len());
        assert(source == head + ident + tail) by {
            assert(source.subrange(at, at + ident.len()) == ident);
            assert(source == source.take(at) + source.subrange(at, at + ident.len()) + source.skip(
                at + ident.len(),
            ));
        }
        lemma_named(source, ident, at);
        assert(named_at(source, ident, head, tail));
    }
    if exists|head: Seq<char>, tail: Seq<char>| named_at(source, ident, head, tail) {
        let (head, tail) = choose|head: Seq<char>, tail: Seq<char>|
            named_at(source, ident, head, tail);
        let at = head.len() as int;
        assert(source.subrange(at, at + ident.len()) == ident);
        assert(occurs_at(source, ident, at));
        assert(source.take(at) == head);
        assert(source.skip(at + ident.len()) == tail);
        lemma_named(source, ident, at);
    }
}

proof fn lemma_named(source: Seq<char>, ident: Seq<char>, at: int)
    requires
        is_word(ident),
        occurs_at(source, ident, at),
    ensures
        names_crate(source, ident, at) <==> named_between(
            source.take(at),
            source.skip(at + ident.len()),
        ),
{
    let head = source.take(at);
    let tail = source.skip(at + ident.len());
    lemma_before_path(tail);
    lemma_after_use(head);
    if head.len() == 0 || !in_word(head.last()) {
        lemma_after_extern_crate(head);
    }
    assert(at > 0 ==> head.last() == source[at - 1]);
    assert(tail.len() > 0 ==> tail[0] == source[at + ident.len()]);
}

proof fn lemma_before_path(tail: Seq<char>)
    ensures
        without_prefix(trimmed_start(tail), "::"@) is Some <==> exists|
            gap: Seq<char>,
            rest: Seq<char>,
        |
            before_path(tail, gap, rest),
{
    reveal_strlit("::");
    if let Some(rest) = without_prefix(trimmed_start(tail), "::"@) {
        let gap = lemma_gap_before(tail);
        lemma_prefix(trimmed_start(tail), "::"@, rest);
        assert(tail == gap + "::"@ + rest);
        assert(before_path(tail, gap, rest));
    }
    if exists|gap: Seq<char>, rest: Seq<char>| before_path(tail, gap, rest) {
        let (gap, rest) = choose|gap: Seq<char>, rest: Seq<char>| before_path(tail, gap, rest);
        let path = "::"@ + rest;
        assert(tail == gap + path);
        assert(path[0] == ':');
        lemma_trimmed_start(tail, gap, path);
        lemma_prefix(path, "::"@, rest);
    }
}

proof fn lemma_after_use(head: Seq<char>)
    ensures
        ends_in_word(trimmed_end(head), "use"@) <==> exists|front: Seq<char>, gap: Seq<char>|
            after_use(head, front, gap),
{
    reveal_strlit("use");
    if ends_in_word(trimmed_end(head), "use"@) {
        let front = without_suffix(trimmed_end(head), "use"@)->0;
        let gap = lemma_gap_after(head);
        lemma_suffix(trimmed_end(head), "use"@, front);
        assert(after_use(head, front, gap));
    }
    if exists|front: Seq<char>, gap: Seq<char>| after_use(head, front, gap) {
        let (front, gap) = choose|front: Seq<char>, gap: Seq<char>| after_use(head, front, gap);
        let words = front + "use"@;
        assert(words.last() == 'e');
        lemma_trimmed_end(head, words, gap);
        lemma_suffix(words, "use"@, front);
    }
}

proof fn lemma_after_extern_crate(head: Seq<char>)
    ensures
        ends_in_word(trimmed_end(head), "crate"@) && without_suffix(
            trimmed_end(trimmed_end(head).take(trimmed_end(head).len() - 5)),
            "extern"@,
        ) is Some <==> exists|front: Seq<char>, between: Seq<char>, gap: Seq<char>|
            after_extern_crate(head, front, between, gap),
{
    reveal_strlit("crate");
    reveal_strlit("extern");
    let words = trimmed_end(head);
    let before = words.take(words.len() - 5);
    if ends_in_word(words, "crate"@) && without_suffix(trimmed_end(before), "extern"@) is Some {
        let rest = without_suffix(words, "crate"@)->0;
        let gap = lemma_gap_after(head);
        lemma_suffix(words, "crate"@, rest);
        assert(before == rest);
        let between = lemma_gap_after(before);
        let front = without_suffix(trimmed_end(before), "extern"@)->0;
        lemma_suffix(trimmed_end(before), "extern"@, front);
        assert(head == front + "extern"@ + between + "crate"@ + gap);
        if between.len() == 0 {
            assert(before == front + "extern"@);
            assert(before.last() == 'n');
        }
        assert(after_extern_crate(head, front, between, gap));
    }
    if exists|front: Seq<char>, between: Seq<char>, gap: Seq<char>|
        after_extern_crate(head, front, between, gap) {
        let (front, between, gap) = choose|front: Seq<char>, between: Seq<char>, gap: Seq<char>|
            after_extern_crate(head, front, between, gap);
        let first = front + "extern"@;
        let all = first + between + "crate"@;
        assert(head == all + gap);
        assert(all.last() == 'e');
        lemma_trimmed_end(head, all, gap);
        lemma_suffix(all, "crate"@, first + between);
        assert((first + between).last() == between.last());
        assert(crate::text::is_space(between[between.len() - 1]));
        assert(before == first + between);
        assert(first.last() == 'n');
        lemma_trimmed_end(first + between, first, between);
        lemma_suffix(first, "extern"@, front);
    }
}

// ---------------------------------------------------------------- what is searched
/// The source of a directory is what its entries give, one after the other.
pub proof fn lemma_source_of_entries(a: Seq<Source>, b: Seq<Source>)
    ensures
        source_in(a + b) == source_in(a) + source_in(b),
        source_in(Seq::<Source>::empty()) == Seq::<char>::empty(),
    decreases b.len(),
{
    if b.len() > 0 {
        lemma_source_of_entries(a, b.drop_last());
        assert((a + b).drop_last() == a + b.drop_last());
        assert((a + b).last() == b.last());
        assert(source_in(a + b) == source_in(a) + source_in(b));
    } else {
        assert(a + b == a);
        assert(source_in(a) + source_in(b) == source_in(a));
    }
}

/// A file counts exactly if its name ends in `.rs` and it can be read: then as all that
/// it holds, and a line feed.
pub proof fn lemma_source_file(name: String, text: String)
    ensures
        (exists|stem: Seq<char>| name@ == #[trigger] (stem + ".rs"@)) ==> source_in(
            seq![Source::File { name, text: Some(text) }],
        ) == text@ + seq!['\n'],
        !(exists|stem: Seq<char>| name@ == #[trigger] (stem + ".rs"@)) ==> source_in(
            seq![Source::File { name, text: Some(text) }],
        ) == Seq::<char>::empty(),
        source_in(seq![Source::File { name, text: None }]) == Seq::<char>::empty(),
{
    let read = seq![Source::File { name, text: Some(text) }];
    let unread = seq![Source::File { name, text: None }];
    assert(read.drop_last() == Seq::<Source>::empty());
    assert(unread.drop_last() == Seq::<Source>::empty());
    if exists|stem: Seq<char>| name@ == #[trigger] (stem + ".rs"@) {
        let stem = choose|stem: Seq<char>| name@ == #[trigger] (stem + ".rs"@);
        lemma_suffix(name@, ".rs"@, stem);
    }
    if let Some(stem) = without_suffix(name@, ".rs"@) {
        lemma_suffix(name@, ".rs"@, stem);
        assert(name@ == stem + ".rs"@);
    }
    assert(source_in(read.drop_last()) == Seq::<char>::empty());
    assert(source_in(unread.drop_last()) == Seq::<char>::empty());
    assert(read.last() == Source::File { name, text: Some(text) });
    assert(unread.last() == Source::File { name, text: None });
    assert(Seq::<char>::empty() + text@.push('\n') =~= text@ + seq!['\n']);
    assert(Seq::<char>::empty() + Seq::<char>::empty() =~= Seq::<char>::empty());
    assert(source_in(unread) =~= Seq::<char>::empty());
}

/// A directory counts as what it holds, unless it is hidden, is called `target` or holds
/// a package of its own: then as nothing.
pub proof fn lemma_source_dir(name: String, nested: bool, items: Vec<Source>)
    ensures
        source_in(seq![Source::Dir { name, nested, items }]) == if nested || name@ == "target"@ || (
        name@.len() > 0 && name@[0] == '.') {
            Seq::<char>::empty()
        } else {
            source_in(items@)
        },
{
    let dir = seq![Source::Dir { name, nested, items }];
    assert(dir.drop_last() == Seq::<Source>::empty());
    assert(source_in(dir.drop_last()) == Seq::<char>::empty());
    assert(dir.last() == Source::Dir { name, nested, items });
    assert(Seq::<char>::empty() + source_in(items@) =~= source_in(items@));
}

} // verus!
