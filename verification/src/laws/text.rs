//! Laws of texts.

use crate::order::text_before;
use crate::text::{
    all_digits, cut_at_first, cut_at_last, decimal, digit, digits_value, index_from, is_space,
    last_index, left_in, lemma_index_from, lemma_last_index, lines, number_up_to, occurs_at,
    right_in, same_ignoring_case, spaces, trimmed, trimmed_end, trimmed_start, underscored,
    unquoted, without_prefix, without_suffix,
};
use vstd::prelude::*;

verus! {

// ---------------------------------------------------------------- beginnings and ends
/// A prefix and what follows it make up the text.
pub proof fn lemma_prefix(text: Seq<char>, prefix: Seq<char>, rest: Seq<char>)
    ensures
        without_prefix(text, prefix) == Some(rest) <==> text == prefix + rest,
        without_prefix(prefix + rest, prefix) == Some(rest),
{
    if without_prefix(text, prefix) == Some(rest) {
        assert(text == prefix + text.skip(prefix.len() as int));
    }
    assert((prefix + rest).skip(prefix.len() as int) == rest);
}

/// A suffix and what precedes it make up the text.
pub proof fn lemma_suffix(text: Seq<char>, suffix: Seq<char>, rest: Seq<char>)
    ensures
        without_suffix(text, suffix) == Some(rest) <==> text == rest + suffix,
        without_suffix(rest + suffix, suffix) == Some(rest),
{
    let n = text.len() - suffix.len();
    if without_suffix(text, suffix) == Some(rest) {
        assert(text == text.take(n) + suffix);
    }
    let whole = rest + suffix;
    assert(whole.take(whole.len() - suffix.len()) == rest);
    assert(suffix.is_suffix_of(whole));
}

// ---------------------------------------------------------------- white space
/// The characters that are trimmed: those with Unicode's property White_Space.
pub proof fn lemma_white_space(c: char)
    ensures
        is_space(c) <==> c == ' ' || c == '\t' || c == '\n' || c == '\r' || c == '\x0B' || c
            == '\x0C' || c == '\u{85}' || c == '\u{A0}' || c == '\u{1680}' || ('\u{2000}' <= c && c
            <= '\u{200A}') || c == '\u{2028}' || c == '\u{2029}' || c == '\u{202F}' || c
            == '\u{205F}' || c == '\u{3000}',
{
}

/// Whether `text` is white space alone.
pub open spec fn all_space(text: Seq<char>) -> bool {
    forall|i: int| 0 <= i < text.len() ==> is_space(#[trigger] text[i])
}

/// Trimming takes off exactly the white space at an end.
pub proof fn lemma_trimmed_end(text: Seq<char>, rest: Seq<char>, gap: Seq<char>)
    requires
        text == rest + gap,
        all_space(gap),
        rest.len() == 0 || !is_space(rest.last()),
    ensures
        trimmed_end(text) == rest,
    decreases gap.len(),
{
    if gap.len() > 0 {
        assert(text.last() == gap.last());
        assert(is_space(gap[gap.len() - 1]));
        assert(text.drop_last() == rest + gap.drop_last());
        lemma_trimmed_end(text.drop_last(), rest, gap.drop_last());
    } else {
        assert(text == rest);
    }
}

/// Trimming takes off exactly the white space at the start.
pub proof fn lemma_trimmed_start(text: Seq<char>, gap: Seq<char>, rest: Seq<char>)
    requires
        text == gap + rest,
        all_space(gap),
        rest.len() == 0 || !is_space(rest[0]),
    ensures
        trimmed_start(text) == rest,
    decreases gap.len(),
{
    if gap.len() > 0 {
        assert(text[0] == gap[0]);
        assert(is_space(gap[0]));
        let fewer = gap.skip(1);
        assert forall|i: int| 0 <= i < fewer.len() implies is_space(#[trigger] fewer[i]) by {
            assert(fewer[i] == gap[i + 1]);
        }
        assert(text.skip(1) == fewer + rest);
        lemma_trimmed_start(text.skip(1), fewer, rest);
    } else {
        assert(text == rest);
    }
}

/// Whatever is trimmed was white space, and what is left has none at its ends.
pub proof fn lemma_gap_before(text: Seq<char>) -> (gap: Seq<char>)
    ensures
        all_space(gap),
        text == gap + trimmed_start(text),
        trimmed_start(text).len() == 0 || !is_space(trimmed_start(text)[0]),
    decreases text.len(),
{
    if text.len() > 0 && is_space(text[0]) {
        let rest = lemma_gap_before(text.skip(1));
        let gap = seq![text[0]] + rest;
        assert forall|i: int| 0 <= i < gap.len() implies is_space(#[trigger] gap[i]) by {
            if i > 0 {
                assert(gap[i] == rest[i - 1]);
            }
        }
        assert(text == seq![text[0]] + text.skip(1));
        assert(text == gap + trimmed_start(text));
        gap
    } else {
        assert(text == Seq::<char>::empty() + text);
        Seq::empty()
    }
}

/// Whatever is trimmed was white space, and what is left has none at its ends.
pub proof fn lemma_gap_after(text: Seq<char>) -> (gap: Seq<char>)
    ensures
        all_space(gap),
        text == trimmed_end(text) + gap,
        trimmed_end(text).len() == 0 || !is_space(trimmed_end(text).last()),
    decreases text.len(),
{
    if text.len() > 0 && is_space(text.last()) {
        let rest = lemma_gap_after(text.drop_last());
        let gap = rest.push(text.last());
        assert(text == text.drop_last().push(text.last()));
        assert(text == trimmed_end(text) + gap);
        gap
    } else {
        assert(text == text + Seq::<char>::empty());
        Seq::empty()
    }
}

/// White space around a text is taken off, and nothing else.
pub proof fn lemma_trimmed(before: Seq<char>, core: Seq<char>, after: Seq<char>)
    requires
        all_space(before),
        all_space(after),
        core.len() > 0,
        !is_space(core[0]),
        !is_space(core.last()),
    ensures
        trimmed(before + core + after) == core,
{
    assert(before + core + after == before + (core + after));
    assert((core + after)[0] == core[0]);
    lemma_trimmed_start(before + core + after, before, core + after);
    lemma_trimmed_end(core + after, core, after);
}

// ---------------------------------------------------------------- quotes
/// Quotes around a text are taken off, and nothing else.
pub proof fn lemma_unquoted(text: Seq<char>)
    ensures
        unquoted(seq!['"'] + text) == unquoted(text),
        unquoted(text.push('"')) == unquoted(text),
        text.len() == 0 || (text[0] != '"' && text.last() != '"') ==> unquoted(text) == text,
    decreases text.len(),
{
    assert((seq!['"'] + text).skip(1) == text);
    let longer = text.push('"');
    assert(longer.drop_last() == text);
    if text.len() > 0 {
        if text[0] == '"' {
            lemma_unquoted(text.skip(1));
            assert(longer.skip(1) == text.skip(1).push('"'));
        }
    } else {
        assert(longer.skip(1) == text);
    }
}

// ---------------------------------------------------------------- cutting
/// A text is cut around the first place at which the part stands.
pub proof fn lemma_cut_first(before: Seq<char>, part: Seq<char>, after: Seq<char>)
    requires
        forall|k: int|
            0 <= k < before.len() ==> !#[trigger] occurs_at(before + part + after, part, k),
    ensures
        cut_at_first(before + part + after, part) == Some((before, after)),
{
    let text = before + part + after;
    let at = before.len() as int;
    assert(text.subrange(at, at + part.len()) == part);
    assert(occurs_at(text, part, at));
    lemma_index_from(text, part, 0);
    assert(text.take(at) == before);
    assert(text.skip(at + part.len()) == after);
}

/// A text without the part is not cut.
pub proof fn lemma_cut_nowhere(text: Seq<char>, part: Seq<char>)
    requires
        forall|k: int| !#[trigger] occurs_at(text, part, k),
    ensures
        cut_at_first(text, part) is None,
{
    lemma_index_from(text, part, 0);
}

/// A text is cut around the first of one character.
pub proof fn lemma_cut_first_char(before: Seq<char>, c: char, after: Seq<char>)
    requires
        !before.contains(c),
    ensures
        cut_at_first(before + seq![c] + after, seq![c]) == Some((before, after)),
        cut_at_first(before, seq![c]) is None,
{
    let part = seq![c];
    let text = before + part + after;
    assert forall|k: int| 0 <= k < before.len() implies !#[trigger] occurs_at(text, part, k) by {
        if occurs_at(text, part, k) {
            assert(text.subrange(k, k + 1)[0] == part[0]);
            assert(text[k] == before[k]);
            assert(before.contains(before[k]));
        }
    }
    lemma_cut_first(before, part, after);
    assert forall|k: int| !#[trigger] occurs_at(before, part, k) by {
        if occurs_at(before, part, k) {
            assert(before.subrange(k, k + 1)[0] == part[0]);
            assert(before.contains(before[k]));
        }
    }
    lemma_cut_nowhere(before, part);
}

/// A text is cut around the last of one character.
pub proof fn lemma_cut_last(before: Seq<char>, c: char, after: Seq<char>)
    requires
        !after.contains(c),
    ensures
        cut_at_last(before + seq![c] + after, c) == Some((before, after)),
        cut_at_last(after, c) is None,
{
    let text = before + seq![c] + after;
    let at = before.len() as int;
    assert(text[at] == c);
    lemma_last_index(text, c);
    lemma_last_index(after, c);
    match last_index(text, c) {
        Some(k) => {
            if k > at {
                assert(text[k] == after[k - at - 1]);
                assert(after.contains(after[k - at - 1]));
            }
        },
        None => {
            assert(text.contains(text[at]));
        },
    }
    if let Some(k) = last_index(after, c) {
        assert(after.contains(after[k]));
    }
    assert(text.take(at) == before);
    assert(text.skip(at + 1) == after);
}

/// Lines end in a line feed, with or without a carriage return before it; what follows
/// the last line feed is a line if there is anything.
pub proof fn lemma_lines(line: Seq<char>, rest: Seq<char>)
    requires
        !line.contains('\n'),
    ensures
        lines(line + seq!['\n'] + rest) == seq![
            if line.len() > 0 && line.last() == '\r' {
                line.drop_last()
            } else {
                line
            },
        ] + lines(rest),
        line.len() > 0 ==> lines(line) == seq![line],
        lines(Seq::<char>::empty()) == Seq::<Seq<char>>::empty(),
{
    let text = line + seq!['\n'] + rest;
    lemma_cut_first_char(line, '\n', rest);
    let at = line.len() as int;
    lemma_index_from(text, seq!['\n'], 0);
    assert(text.subrange(at, at + 1) == seq!['\n']);
    assert(occurs_at(text, seq!['\n'], at));
    let k = index_from(text, seq!['\n'], 0)->0;
    if k < at {
        assert(text.subrange(k, k + 1)[0] == '\n');
        assert(line[k] == '\n');
        assert(line.contains(line[k]));
    }
    assert(text.take(at) == line);
    assert(text.skip(at + 1) == rest);
    assert(lines(text) == seq![crate::text::without_return(line)] + lines(rest));
}

/// Hyphens become underscores, and every other character stays.
pub proof fn lemma_underscored_chars(text: Seq<char>, i: int)
    requires
        0 <= i < text.len(),
    ensures
        underscored(text).len() == text.len(),
        text[i] == '-' ==> underscored(text)[i] == '_',
        text[i] != '-' ==> underscored(text)[i] == text[i],
{
}

// ---------------------------------------------------------------- numbers
/// A number is written in decimal digits, without a zero before them, and reads back as
/// itself.
pub proof fn lemma_decimal(n: nat)
    ensures
        digits_value(decimal(n)) == n,
        decimal(n).len() >= 1,
        forall|i: int|
            0 <= i < decimal(n).len() ==> '0' <= #[trigger] decimal(n)[i] && decimal(n)[i] <= '9',
        n > 0 ==> decimal(n)[0] != '0',
        n == 0 ==> decimal(n) == seq!['0'],
    decreases n,
{
    if n >= 10 {
        lemma_decimal(n / 10);
        assert(decimal(n).drop_last() == decimal(n / 10));
        assert(decimal(n)[0] == decimal(n / 10)[0]);
        assert(decimal(n).last() == digit(n % 10));
    } else {
        assert(decimal(n).drop_last() == Seq::<char>::empty());
        assert(digits_value(Seq::<char>::empty()) == 0);
        assert(decimal(n).last() == digit(n));
    }
}

/// The value of digits: each is worth ten times the next.
pub proof fn lemma_digits_value(digits: Seq<char>, c: char)
    requires
        '0' <= c && c <= '9',
    ensures
        digits_value(Seq::<char>::empty()) == 0,
        digits_value(digits.push(c)) == digits_value(digits) * 10 + (c as u32 - '0' as u32),
{
    assert(digits.push(c).drop_last() == digits);
}

/// A number that was written is read, with or without a plus sign, unless it is above
/// the limit.
pub proof fn lemma_number_reads_back(n: nat, max: nat)
    ensures
        number_up_to(decimal(n), max) == if n <= max {
            Some(n)
        } else {
            None
        },
        number_up_to(seq!['+'] + decimal(n), max) == if n <= max {
            Some(n)
        } else {
            None
        },
{
    lemma_decimal(n);
    assert('0' <= decimal(n)[0] && decimal(n)[0] <= '9');
    assert(all_digits(decimal(n)));
    assert((seq!['+'] + decimal(n)).skip(1) == decimal(n));
}

/// Nothing but digits behind at most one plus sign is a number.
pub proof fn lemma_not_a_number(text: Seq<char>, i: int, max: nat)
    requires
        0 <= i < text.len(),
        !('0' <= text[i] && text[i] <= '9'),
        i > 0 || text[0] != '+',
    ensures
        number_up_to(text, max) is None,
        number_up_to(Seq::<char>::empty(), max) is None,
        number_up_to(seq!['+'], max) is None,
{
    if text[0] == '+' {
        assert(text.skip(1)[i - 1] == text[i]);
    }
    assert(seq!['+'].skip(1) == Seq::<char>::empty());
}

// ---------------------------------------------------------------- columns
/// A text in a column stands at its left or right edge, with spaces beside it, and is
/// never cut.
pub proof fn lemma_columns(text: Seq<char>, width: int)
    ensures
        left_in(text, width).take(text.len() as int) == text,
        right_in(text, width).skip(right_in(text, width).len() - text.len()) == text,
        left_in(text, width).len() == if width > text.len() {
            width
        } else {
            text.len() as int
        },
        right_in(text, width).len() == left_in(text, width).len(),
        forall|i: int|
            text.len() <= i < left_in(text, width).len() ==> #[trigger] left_in(text, width)[i]
                == ' ',
        forall|i: int|
            0 <= i < right_in(text, width).len() - text.len() ==> #[trigger] right_in(
                text,
                width,
            )[i] == ' ',
{
}

// ---------------------------------------------------------------- comparing
/// Capital letters from A to Z count as the small ones, and nothing else is taken for
/// another.
pub proof fn lemma_ignoring_case(a: char, b: char)
    ensures
        same_ignoring_case(seq![a], seq![b]) <==> a == b || ('A' <= a && a <= 'Z' && b as u32 == a
            as u32 + 32) || ('A' <= b && b <= 'Z' && a as u32 == b as u32 + 32),
{
    assert(seq![a][0] == a && seq![b][0] == b);
    if 'A' <= a && a <= 'Z' {
        let n = a as u8;
        assert((n + 32) as char as u32 == a as u32 + 32);
    }
    if 'A' <= b && b <= 'Z' {
        let n = b as u8;
        assert((n + 32) as char as u32 == b as u32 + 32);
    }
}

/// Texts are compared character by character.
pub proof fn lemma_ignoring_case_pairs(a: Seq<char>, b: Seq<char>, x: char, y: char)
    ensures
        same_ignoring_case(a.push(x), b.push(y)) <==> same_ignoring_case(a, b)
            && same_ignoring_case(seq![x], seq![y]),
        same_ignoring_case(Seq::<char>::empty(), b) <==> b.len() == 0,
{
    if same_ignoring_case(a.push(x), b.push(y)) {
        assert forall|i: int| 0 <= i < a.len() implies crate::text::ascii_lower(#[trigger] a[i])
            == crate::text::ascii_lower(b[i]) by {
            assert(a.push(x)[i] == a[i] && b.push(y)[i] == b[i]);
        }
        assert(a.push(x)[a.len() as int] == x && b.push(y)[b.len() as int] == y);
        assert(seq![x][0] == x && seq![y][0] == y);
    }
    if same_ignoring_case(a, b) && same_ignoring_case(seq![x], seq![y]) {
        assert(seq![x][0] == x && seq![y][0] == y);
        assert forall|i: int| 0 <= i < a.push(x).len() implies crate::text::ascii_lower(
            #[trigger] a.push(x)[i],
        ) == crate::text::ascii_lower(b.push(y)[i]) by {
            if i < a.len() {
                assert(a.push(x)[i] == a[i] && b.push(y)[i] == b[i]);
            }
        }
    }
}

/// The first character that differs decides the order of texts, by its code; a text
/// stands before its continuations.
pub proof fn lemma_text_order(common: Seq<char>, a: char, x: Seq<char>, b: char, y: Seq<char>)
    ensures
        a < b ==> text_before(common + seq![a] + x, common + seq![b] + y),
        text_before(common, common + seq![a] + x),
        !text_before(common, common),
    decreases common.len(),
{
    let one = common + seq![a] + x;
    let two = common + seq![b] + y;
    if common.len() > 0 {
        let rest = common.skip(1);
        lemma_text_order(rest, a, x, b, y);
        assert(one.skip(1) == rest + seq![a] + x);
        assert(two.skip(1) == rest + seq![b] + y);
        assert(one[0] == common[0] && two[0] == common[0]);
    } else {
        assert(one[0] == a);
        assert(two[0] == b);
    }
}

} // verus!
