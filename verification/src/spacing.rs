//! Where a JSON document ends, and what may stand around it.

use crate::json::{
    document, elements, escape, hex4, is_blank, is_fraction, is_number, is_number_char, members,
    past_blanks, past_number, stands, string, string_body, unsigned, value,
};
use crate::text::occurs_at;
use vstd::prelude::*;

verus! {

// ---------------------------------------------------------------- laws
/// Whether `text` is white space alone.
pub open spec fn all_blank(text: Seq<char>) -> bool {
    forall|i: int| 0 <= i < text.len() ==> is_blank(#[trigger] text[i])
}

/// White space around a text does not change the document that it spells.
pub proof fn lemma_spacing(before: Seq<char>, text: Seq<char>, after: Seq<char>)
    requires
        all_blank(before),
        all_blank(after),
    ensures
        document(before + text + after) == document(text),
{
    lemma_leading(before, text + after);
    assert(before + (text + after) == before + text + after);
    lemma_trailing(text, after);
}

/// A document is one value: with anything but white space behind it, a text that spells
/// one spells none. What could go on a number counts as behind it only after a space.
pub proof fn lemma_one_value(text: Seq<char>, after: Seq<char>, c: char, rest: Seq<char>)
    requires
        document(text) is Some,
        all_blank(after),
        !is_blank(c),
        after.len() > 0 || !is_number_char(c),
    ensures
        document(text + after + seq![c] + rest) is None,
{
    let tail = after + seq![c] + rest;
    let whole = text + tail;
    assert(whole == text + after + seq![c] + rest);
    assert(after.len() > 0 ==> tail[0] == after[0]);
    assert(after.len() == 0 ==> tail[0] == c);
    let end = end_of(value(text, 0));
    lemma_value_end(text, 0);
    lemma_value_local(text, tail, 0);
    lemma_blanks(text, end);
    let at = text.len() + after.len();
    assert forall|k: int| end <= k < at implies is_blank(#[trigger] whole[k]) by {
        if k < text.len() {
            assert(whole[k] == text[k]);
        } else {
            assert(whole[k] == after[k - text.len()]);
        }
    }
    assert(whole[at as int] == c);
    lemma_blanks_are(whole, end, at as int);
}

proof fn lemma_leading(before: Seq<char>, text: Seq<char>)
    requires
        all_blank(before),
    ensures
        document(before + text) == document(text),
{
    let n = before.len() as int;
    let whole = before + text;
    let first = past_blanks(text, 0);
    lemma_blanks(text, 0);
    lemma_blanks_moved(before, text, 0);
    assert forall|k: int| 0 <= k < first + n implies is_blank(#[trigger] whole[k]) by {
        if k < n {
            assert(whole[k] == before[k]);
        } else {
            assert(whole[k] == text[k - n]);
        }
    }
    if first < text.len() {
        assert(whole[first + n] == text[first]);
    }
    lemma_blanks_are(whole, 0, first + n);
    assert(value(whole, 0) == value(whole, n));
    lemma_value_moved(before, text, 0);
    if let Some((v, end)) = value(text, 0) {
        lemma_value_end(text, 0);
        lemma_blanks_moved(before, text, end);
    }
}

proof fn lemma_trailing(text: Seq<char>, after: Seq<char>)
    requires
        all_blank(after),
    ensures
        document(text + after) == document(text),
{
    let whole = text + after;
    lemma_value_local(text, after, 0);
    if let Some((v, end)) = value(whole, 0) {
        lemma_value_end(whole, 0);
        if end > text.len() {
            assert(whole[end - 1] == after[end - 1 - text.len()]);
        }
    }
    if let Some((v, end)) = value(text, 0) {
        lemma_value_end(text, 0);
        lemma_blanks(text, end);
        lemma_blanks(whole, end);
        let stop = past_blanks(text, end);
        if stop == text.len() {
            assert forall|k: int| end <= k < whole.len() implies is_blank(#[trigger] whole[k]) by {
                if k < text.len() {
                    assert(whole[k] == text[k]);
                } else {
                    assert(whole[k] == after[k - text.len()]);
                }
            }
            lemma_blanks_are(whole, end, whole.len() as int);
        } else {
            assert(whole[stop] == text[stop]);
            assert(!is_blank(whole[stop]));
        }
    }
}

// ---------------------------------------------------------------- white space
/// White space goes on to the first other character.
pub proof fn lemma_blanks(s: Seq<char>, at: int)
    requires
        0 <= at <= s.len(),
    ensures
        at <= past_blanks(s, at) <= s.len(),
        forall|k: int| at <= k < past_blanks(s, at) ==> is_blank(#[trigger] s[k]),
        past_blanks(s, at) < s.len() ==> !is_blank(s[past_blanks(s, at)]),
    decreases s.len() - at,
{
    if at < s.len() && is_blank(s[at]) {
        lemma_blanks(s, at + 1);
    }
}

/// White space ends where the first other character stands.
pub proof fn lemma_blanks_are(s: Seq<char>, at: int, end: int)
    requires
        0 <= at <= end <= s.len(),
        forall|k: int| at <= k < end ==> is_blank(#[trigger] s[k]),
        end < s.len() ==> !is_blank(s[end]),
    ensures
        past_blanks(s, at) == end,
    decreases end - at,
{
    if at < end {
        assert(is_blank(s[at]));
        lemma_blanks_are(s, at + 1, end);
    }
}

proof fn lemma_blanks_moved(w: Seq<char>, s: Seq<char>, at: int)
    requires
        0 <= at,
    ensures
        past_blanks(w + s, at + w.len()) == past_blanks(s, at) + w.len(),
    decreases s.len() - at,
{
    if at < s.len() {
        assert((w + s)[at + w.len()] == s[at]);
        if is_blank(s[at]) {
            lemma_blanks_moved(w, s, at + 1);
        }
    }
}

/// More text does not change where white space ends, if it ends before that text.
proof fn lemma_blanks_local(s: Seq<char>, t: Seq<char>, at: int)
    requires
        0 <= at,
    ensures
        past_blanks(s, at) < s.len() ==> past_blanks(s + t, at) == past_blanks(s, at),
        past_blanks(s + t, at) < s.len() ==> past_blanks(s + t, at) == past_blanks(s, at),
    decreases s.len() - at,
{
    if at < s.len() {
        assert((s + t)[at] == s[at]);
        if is_blank(s[at]) {
            lemma_blanks_local(s, t, at + 1);
        }
    } else if at <= s.len() + t.len() {
        lemma_blanks(s + t, at);
    }
}

// ---------------------------------------------------------------- moving a text
/// Where what was found ends.
spec fn end_of<T>(found: Option<(T, int)>) -> int {
    match found {
        Some((v, end)) => end,
        None => 0,
    }
}

/// The same result, `n` characters on.
pub open spec fn moved<T>(found: Option<(T, int)>, n: int) -> Option<(T, int)> {
    match found {
        Some((v, end)) => Some((v, end + n)),
        None => None,
    }
}

proof fn lemma_occurs_moved(w: Seq<char>, s: Seq<char>, part: Seq<char>, at: int)
    requires
        0 <= at,
    ensures
        occurs_at(w + s, part, at + w.len()) == occurs_at(s, part, at),
{
    if at + part.len() <= s.len() {
        assert((w + s).subrange(at + w.len(), at + w.len() + part.len()) == s.subrange(
            at,
            at + part.len(),
        ));
    }
}

proof fn lemma_hex4_moved(w: Seq<char>, s: Seq<char>, at: int)
    requires
        0 <= at,
    ensures
        hex4(w + s, at + w.len()) == hex4(s, at),
{
    let n = w.len() as int;
    if at + 4 <= s.len() {
        assert((w + s)[at + n] == s[at]);
        assert((w + s).subrange(at + n + 1, at + n + 4) == s.subrange(at + 1, at + 4));
        assert((w + s).subrange(at + n, at + n + 4) == s.subrange(at, at + 4));
    }
}

proof fn lemma_escape_moved(w: Seq<char>, s: Seq<char>, at: int)
    requires
        0 <= at,
    ensures
        escape(w + s, at + w.len()) == moved(escape(s, at), w.len() as int),
{
    if at < s.len() {
        assert((w + s)[at + w.len()] == s[at]);
        lemma_hex4_moved(w, s, at + 1);
        lemma_hex4_moved(w, s, at + 7);
        lemma_occurs_moved(w, s, seq!['\\', 'u'], at + 5);
    }
}

/// A string reads the same wherever it stands.
pub proof fn lemma_string_body_moved(w: Seq<char>, s: Seq<char>, at: int)
    requires
        0 <= at,
    ensures
        string_body(w + s, at + w.len()) == moved(string_body(s, at), w.len() as int),
    decreases s.len() - at,
{
    if at < s.len() {
        assert((w + s)[at + w.len()] == s[at]);
        lemma_escape_moved(w, s, at + 1);
        let first = if s[at] == '\\' {
            escape(s, at + 1)
        } else {
            Some((s[at], at + 1))
        };
        if let Some((c, next)) = first {
            if s[at] != '"' && next > at {
                lemma_string_body_moved(w, s, next);
            }
        }
    }
}

proof fn lemma_string_moved(w: Seq<char>, s: Seq<char>, at: int)
    requires
        0 <= at,
    ensures
        string(w + s, at + w.len()) == moved(string(s, at), w.len() as int),
{
    if at < s.len() {
        assert((w + s)[at + w.len()] == s[at]);
        lemma_string_body_moved(w, s, at + 1);
    }
}

proof fn lemma_number_moved(w: Seq<char>, s: Seq<char>, at: int)
    requires
        0 <= at,
    ensures
        past_number(w + s, at + w.len()) == past_number(s, at) + w.len(),
    decreases s.len() - at,
{
    if at < s.len() {
        assert((w + s)[at + w.len()] == s[at]);
        if is_number_char(s[at]) {
            lemma_number_moved(w, s, at + 1);
        }
    }
}

proof fn lemma_stands_moved(w: Seq<char>, s: Seq<char>, at: int, c: char)
    requires
        0 <= at,
    ensures
        stands(w + s, at + w.len(), c) == stands(s, at, c),
{
    if at < s.len() {
        assert((w + s)[at + w.len()] == s[at]);
    }
}

/// A value reads the same wherever it stands.
pub proof fn lemma_value_moved(w: Seq<char>, s: Seq<char>, at: int)
    requires
        0 <= at <= s.len(),
    ensures
        value(w + s, at + w.len()) == moved(value(s, at), w.len() as int),
    decreases s.len() - at, 1int,
{
    let n = w.len() as int;
    let i = past_blanks(s, at);
    lemma_blanks(s, at);
    lemma_blanks_moved(w, s, at);
    if i < s.len() {
        assert((w + s)[i + n] == s[i]);
        let next = past_blanks(s, i + 1);
        lemma_blanks(s, i + 1);
        lemma_blanks_moved(w, s, i + 1);
        lemma_stands_moved(w, s, next, '}');
        lemma_stands_moved(w, s, next, ']');
        if s[i] == '{' {
            lemma_members_moved(w, s, i + 1);
        } else if s[i] == '[' {
            lemma_elements_moved(w, s, i + 1);
        } else {
            lemma_string_moved(w, s, i);
            lemma_occurs_moved(w, s, "true"@, i);
            lemma_occurs_moved(w, s, "false"@, i);
            lemma_occurs_moved(w, s, "null"@, i);
            lemma_number_moved(w, s, i);
            lemma_number_end(s, i);
            let end = past_number(s, i);
            assert((w + s).subrange(i + n, end + n) == s.subrange(i, end));
        }
    }
}

/// Fields read the same wherever they stand.
pub proof fn lemma_members_moved(w: Seq<char>, s: Seq<char>, at: int)
    requires
        0 <= at <= s.len(),
    ensures
        members(w + s, at + w.len()) == moved(members(s, at), w.len() as int),
    decreases s.len() - at, 2int,
{
    let n = w.len() as int;
    let long = w + s;
    let first = past_blanks(s, at);
    lemma_blanks(s, at);
    lemma_blanks_moved(w, s, at);
    lemma_string_moved(w, s, first);
    assert(past_blanks(long, at + n) == first + n);
    match string(s, first) {
        Some((key, end)) => {
            lemma_string_end(s, first);
            assert(string(long, first + n) == Some((key, end + n)));
            let colon = past_blanks(s, end);
            lemma_blanks(s, end);
            lemma_blanks_moved(w, s, end);
            assert(past_blanks(long, end + n) == colon + n);
            lemma_stands_moved(w, s, colon, ':');
            if stands(s, colon, ':') {
                lemma_value_moved(w, s, colon + 1);
                match value(s, colon + 1) {
                    Some((v, close)) => {
                        lemma_value_end(s, colon + 1);
                        assert(value(long, colon + n + 1) == Some((v, close + n)));
                        let next = past_blanks(s, close);
                        lemma_blanks(s, close);
                        lemma_blanks_moved(w, s, close);
                        assert(past_blanks(long, close + n) == next + n);
                        lemma_stands_moved(w, s, next, '}');
                        lemma_stands_moved(w, s, next, ',');
                        if stands(s, next, '}') {
                            assert(members(long, at + n) == Some((seq![(key, v)], next + n + 1)));
                        } else if stands(s, next, ',') {
                            lemma_members_moved(w, s, next + 1);
                            assert(members(long, next + n + 1) == moved(members(s, next + 1), n));
                        } else {
                            assert(members(long, at + n) is None);
                        }
                    },
                    None => {
                        assert(value(long, colon + n + 1) is None);
                        assert(members(long, at + n) is None);
                    },
                }
            } else {
                assert(members(long, at + n) is None);
            }
        },
        None => {
            assert(members(long, at + n) is None);
        },
    }
}

/// Elements read the same wherever they stand.
pub proof fn lemma_elements_moved(w: Seq<char>, s: Seq<char>, at: int)
    requires
        0 <= at <= s.len(),
    ensures
        elements(w + s, at + w.len()) == moved(elements(s, at), w.len() as int),
    decreases s.len() - at, 2int,
{
    lemma_value_moved(w, s, at);
    if let Some((v, end)) = value(s, at) {
        lemma_value_end(s, at);
        let next = past_blanks(s, end);
        lemma_blanks(s, end);
        lemma_blanks_moved(w, s, end);
        lemma_stands_moved(w, s, next, ']');
        lemma_stands_moved(w, s, next, ',');
        if !stands(s, next, ']') && stands(s, next, ',') {
            lemma_elements_moved(w, s, next + 1);
        }
    }
}

// ---------------------------------------------------------------- where things end
proof fn lemma_escape_end(s: Seq<char>, at: int)
    requires
        0 <= at,
    ensures
        escape(s, at) matches Some((c, end)) ==> at < end <= s.len(),
{
}

proof fn lemma_string_body_end(s: Seq<char>, at: int)
    requires
        0 <= at,
    ensures
        string_body(s, at) matches Some((text, end)) ==> at < end <= s.len() && s[end - 1] == '"',
    decreases s.len() - at,
{
    if at < s.len() && s[at] != '"' {
        lemma_escape_end(s, at + 1);
        let first = if s[at] == '\\' {
            escape(s, at + 1)
        } else {
            Some((s[at], at + 1))
        };
        if let Some((c, next)) = first {
            if next > at {
                lemma_string_body_end(s, next);
            }
        }
    }
}

/// A string ends behind its closing quote.
pub proof fn lemma_string_end(s: Seq<char>, at: int)
    requires
        0 <= at,
    ensures
        string(s, at) matches Some((text, end)) ==> at + 1 < end <= s.len() && s[end - 1] == '"',
{
    if at < s.len() {
        lemma_string_body_end(s, at + 1);
    }
}

proof fn lemma_number_end(s: Seq<char>, at: int)
    requires
        0 <= at <= s.len(),
    ensures
        at <= past_number(s, at) <= s.len(),
        forall|k: int| at <= k < past_number(s, at) ==> is_number_char(#[trigger] s[k]),
        past_number(s, at) < s.len() ==> !is_number_char(s[past_number(s, at)]),
    decreases s.len() - at,
{
    if at < s.len() && is_number_char(s[at]) {
        lemma_number_end(s, at + 1);
    }
}

proof fn lemma_no_number()
    ensures
        !is_number(Seq::<char>::empty()),
{
    let none = Seq::<char>::empty();
    assert(unsigned(none) == none);
    assert(!is_fraction(none));
}

/// A value ends behind where it starts, and not in white space.
pub proof fn lemma_value_end(s: Seq<char>, at: int)
    requires
        0 <= at <= s.len(),
    ensures
        value(s, at) matches Some((v, end)) ==> at < end <= s.len() && !is_blank(s[end - 1])
            && past_blanks(s, at) < end,
    decreases s.len() - at, 1int,
{
    let i = past_blanks(s, at);
    lemma_blanks(s, at);
    if i < s.len() && value(s, at) is Some {
        lemma_blanks(s, i + 1);
        if s[i] == '{' {
            lemma_members_end(s, i + 1);
        } else if s[i] == '[' {
            lemma_elements_end(s, i + 1);
        } else if s[i] == '"' {
            lemma_string_end(s, i);
        } else if s[i] == 't' {
            reveal_strlit("true");
            assert(s.subrange(i, i + 4)[3] == 'e');
        } else if s[i] == 'f' {
            reveal_strlit("false");
            assert(s.subrange(i, i + 5)[4] == 'e');
        } else if s[i] == 'n' {
            reveal_strlit("null");
            assert(s.subrange(i, i + 4)[3] == 'l');
        } else {
            lemma_number_end(s, i);
            lemma_no_number();
            let end = past_number(s, i);
            if end == i {
                assert(s.subrange(i, end) == Seq::<char>::empty());
            }
            assert(is_number_char(s[end - 1]));
        }
    }
}

proof fn lemma_members_end(s: Seq<char>, at: int)
    requires
        0 <= at <= s.len(),
    ensures
        members(s, at) matches Some((fields, end)) ==> at < end <= s.len() && s[end - 1] == '}'
            && past_blanks(s, at) < end,
    decreases s.len() - at, 2int,
{
    let first = past_blanks(s, at);
    lemma_blanks(s, at);
    if let Some((key, end)) = string(s, first) {
        lemma_string_end(s, first);
        let colon = past_blanks(s, end);
        lemma_blanks(s, end);
        if stands(s, colon, ':') {
            lemma_value_end(s, colon + 1);
            if let Some((v, end)) = value(s, colon + 1) {
                let next = past_blanks(s, end);
                lemma_blanks(s, end);
                if !stands(s, next, '}') && stands(s, next, ',') {
                    lemma_members_end(s, next + 1);
                }
            }
        }
    }
}

proof fn lemma_elements_end(s: Seq<char>, at: int)
    requires
        0 <= at <= s.len(),
    ensures
        elements(s, at) matches Some((items, end)) ==> at < end <= s.len() && s[end - 1] == ']'
            && past_blanks(s, at) < end,
    decreases s.len() - at, 2int,
{
    lemma_value_end(s, at);
    if let Some((v, end)) = value(s, at) {
        let next = past_blanks(s, end);
        lemma_blanks(s, end);
        if !stands(s, next, ']') && stands(s, next, ',') {
            lemma_elements_end(s, next + 1);
        }
    }
}

// ---------------------------------------------------------------- more text behind
/// The same result with or without more text behind: whatever is found in a text is
/// found in the longer one, and whatever is found there and ends in the text is found
/// in the text.
spec fn is_local<T>(short: Option<(T, int)>, long: Option<(T, int)>, len: int) -> bool {
    &&& short is Some ==> long == short
    &&& long is Some && end_of(long) <= len ==> short == long
}

proof fn lemma_occurs_local(s: Seq<char>, t: Seq<char>, part: Seq<char>, at: int)
    requires
        0 <= at,
        at + part.len() <= s.len(),
    ensures
        occurs_at(s + t, part, at) == occurs_at(s, part, at),
{
    assert((s + t).subrange(at, at + part.len()) == s.subrange(at, at + part.len()));
}

proof fn lemma_hex4_local(s: Seq<char>, t: Seq<char>, at: int)
    requires
        0 <= at,
        at + 4 <= s.len(),
    ensures
        hex4(s + t, at) == hex4(s, at),
{
    assert((s + t)[at] == s[at]);
    assert((s + t).subrange(at + 1, at + 4) == s.subrange(at + 1, at + 4));
    assert((s + t).subrange(at, at + 4) == s.subrange(at, at + 4));
}

proof fn lemma_string_body_local(s: Seq<char>, t: Seq<char>, at: int)
    requires
        0 <= at,
    ensures
        is_local(string_body(s, at), string_body(s + t, at), s.len() as int),
    decreases s.len() - at,
{
    let long = s + t;
    lemma_string_body_end(long, at);
    if at < s.len() {
        assert(long[at] == s[at]);
        if s[at] == '"' {
        } else if s[at] != '\\' {
            lemma_string_body_local(s, t, at + 1);
        } else {
            let short = escape(s, at + 1);
            lemma_escape_end(s, at + 1);
            lemma_escape_end(long, at + 1);
            if at + 1 < s.len() {
                assert(long[at + 1] == s[at + 1]);
                if s[at + 1] == 'u' {
                    lemma_unicode_local(s, t, at);
                } else if let Some((c, next)) = short {
                    lemma_string_body_local(s, t, next);
                }
            } else if let Some((c, next)) = escape(long, at + 1) {
                lemma_string_body_end(long, next);
            }
        }
    }
}

/// The step for an escape by number, whose second half may lie in the longer text alone:
/// then the string does not end in the shorter one.
proof fn lemma_unicode_local(s: Seq<char>, t: Seq<char>, at: int)
    requires
        0 <= at,
        at + 1 < s.len(),
        s[at] == '\\',
        s[at + 1] == 'u',
    ensures
        is_local(string_body(s, at), string_body(s + t, at), s.len() as int),
    decreases s.len() - at, 0int,
{
    let long = s + t;
    let pair = seq!['\\', 'u'];
    assert(long[at] == s[at]);
    assert(long[at + 1] == s[at + 1]);
    lemma_escape_end(s, at + 1);
    lemma_escape_end(long, at + 1);
    if let Some((c, next)) = escape(long, at + 1) {
        lemma_string_body_end(long, next);
    }
    if let Some((c, next)) = escape(s, at + 1) {
        lemma_string_body_end(s, next);
    }
    if at + 6 <= s.len() {
        lemma_hex4_local(s, t, at + 2);
        if at + 8 <= s.len() {
            lemma_occurs_local(s, t, pair, at + 6);
            if at + 12 <= s.len() {
                lemma_hex4_local(s, t, at + 8);
            }
        } else if at + 7 <= s.len() {
            assert(long[at + 6] == s[at + 6]);
            if occurs_at(long, pair, at + 6) {
                assert(long.subrange(at + 6, at + 8)[0] == pair[0]);
                assert(s[at + 6] == '\\');
                assert(escape(s, at + 7) is None);
                assert(string_body(s, at + 6) is None);
            }
        }
        if let Some((c, next)) = escape(s, at + 1) {
            lemma_string_body_local(s, t, next);
        }
    }
}

proof fn lemma_string_local(s: Seq<char>, t: Seq<char>, at: int)
    requires
        0 <= at,
    ensures
        is_local(string(s, at), string(s + t, at), s.len() as int),
{
    lemma_string_end(s + t, at);
    if at < s.len() {
        assert((s + t)[at] == s[at]);
        lemma_string_body_local(s, t, at + 1);
    }
}

/// Whether no number goes on in `t`.
spec fn parts_numbers(t: Seq<char>) -> bool {
    t.len() > 0 ==> !is_number_char(t[0])
}

proof fn lemma_number_local(s: Seq<char>, t: Seq<char>, at: int)
    requires
        0 <= at <= s.len(),
        parts_numbers(t),
    ensures
        past_number(s + t, at) == past_number(s, at),
    decreases s.len() - at,
{
    if at < s.len() {
        assert((s + t)[at] == s[at]);
        if is_number_char(s[at]) {
            lemma_number_local(s, t, at + 1);
        }
    } else if t.len() > 0 {
        assert((s + t)[at] == t[0]);
    }
}

proof fn lemma_value_local(s: Seq<char>, t: Seq<char>, at: int)
    requires
        0 <= at <= s.len(),
        parts_numbers(t),
    ensures
        is_local(value(s, at), value(s + t, at), s.len() as int),
    decreases s.len() - at, 1int,
{
    let long = s + t;
    let i = past_blanks(s, at);
    lemma_blanks(s, at);
    lemma_blanks_local(s, t, at);
    lemma_value_end(long, at);
    if i < s.len() {
        assert(long[i] == s[i]);
        let next = past_blanks(s, i + 1);
        lemma_blanks(s, i + 1);
        lemma_blanks(long, i + 1);
        lemma_blanks_local(s, t, i + 1);
        if next < s.len() {
            assert(long[next] == s[next]);
        }
        if s[i] == '{' {
            lemma_members_local(s, t, i + 1);
            lemma_members_end(s, i + 1);
            lemma_members_end(long, i + 1);
        } else if s[i] == '[' {
            lemma_elements_local(s, t, i + 1);
            lemma_elements_end(s, i + 1);
            lemma_elements_end(long, i + 1);
        } else if s[i] == '"' {
            lemma_string_local(s, t, i);
        } else if s[i] == 't' {
            reveal_strlit("true");
            if i + 4 <= s.len() {
                lemma_occurs_local(s, t, "true"@, i);
            }
        } else if s[i] == 'f' {
            reveal_strlit("false");
            if i + 5 <= s.len() {
                lemma_occurs_local(s, t, "false"@, i);
            }
        } else if s[i] == 'n' {
            reveal_strlit("null");
            if i + 4 <= s.len() {
                lemma_occurs_local(s, t, "null"@, i);
            }
        } else {
            lemma_number_local(s, t, i);
            lemma_number_end(s, i);
            let end = past_number(s, i);
            assert(long.subrange(i, end) == s.subrange(i, end));
        }
    }
}

proof fn lemma_members_local(s: Seq<char>, t: Seq<char>, at: int)
    requires
        0 <= at <= s.len(),
        parts_numbers(t),
    ensures
        is_local(members(s, at), members(s + t, at), s.len() as int),
    decreases s.len() - at, 2int,
{
    let long = s + t;
    let first = past_blanks(s, at);
    lemma_blanks(s, at);
    lemma_blanks_local(s, t, at);
    lemma_members_end(long, at);
    lemma_string_local(s, t, first);
    lemma_string_end(s, first);
    if first < s.len() {
        lemma_string_end(long, first);
        match string(s, first) {
            Some((key, end)) => {
                let colon = past_blanks(s, end);
                lemma_blanks(s, end);
                lemma_blanks_local(s, t, end);
                if colon < s.len() {
                    assert(long[colon] == s[colon]);
                    if s[colon] == ':' {
                        lemma_value_local(s, t, colon + 1);
                        lemma_value_end(s, colon + 1);
                        lemma_value_end(long, colon + 1);
                        match value(s, colon + 1) {
                            Some((v, end)) => {
                                let next = past_blanks(s, end);
                                lemma_blanks(s, end);
                                lemma_blanks(long, end);
                                lemma_blanks_local(s, t, end);
                                if next < s.len() {
                                    assert(long[next] == s[next]);
                                    if s[next] == ',' {
                                        lemma_members_local(s, t, next + 1);
                                    }
                                } else {
                                    lemma_tail_ends(s, t, at);
                                }
                            },
                            None => {
                                lemma_tail_ends(s, t, at);
                            },
                        }
                    }
                } else {
                    lemma_tail_ends(s, t, at);
                }
            },
            None => {
                lemma_tail_ends(s, t, at);
            },
        }
    }
}

/// Every piece of an object ends before the object does.
proof fn lemma_tail_ends(s: Seq<char>, t: Seq<char>, at: int)
    requires
        0 <= at <= s.len(),
    ensures
        members(s + t, at) matches Some((fields, stop)) ==> {
            let long = s + t;
            let first = past_blanks(long, at);
            let end = end_of(string(long, first));
            let colon = past_blanks(long, end);
            let close = end_of(value(long, colon + 1));
            let next = past_blanks(long, close);
            first < end <= colon < close <= next < stop
        },
{
    let long = s + t;
    let first = past_blanks(long, at);
    lemma_blanks(long, at);
    if members(long, at) is Some {
        let end = end_of(string(long, first));
        lemma_string_end(long, first);
        let colon = past_blanks(long, end);
        lemma_blanks(long, end);
        let close = end_of(value(long, colon + 1));
        lemma_value_end(long, colon + 1);
        let next = past_blanks(long, close);
        lemma_blanks(long, close);
        if !stands(long, next, '}') {
            lemma_members_end(long, next + 1);
        }
    }
}

proof fn lemma_elements_local(s: Seq<char>, t: Seq<char>, at: int)
    requires
        0 <= at <= s.len(),
        parts_numbers(t),
    ensures
        is_local(elements(s, at), elements(s + t, at), s.len() as int),
    decreases s.len() - at, 2int,
{
    let long = s + t;
    lemma_value_local(s, t, at);
    lemma_value_end(s, at);
    lemma_value_end(long, at);
    if let Some((v, end)) = value(long, at) {
        let next = past_blanks(long, end);
        lemma_blanks(long, end);
        if !stands(long, next, ']') && stands(long, next, ',') {
            lemma_elements_end(long, next + 1);
        }
    }
    if let Some((v, end)) = value(s, at) {
        let next = past_blanks(s, end);
        lemma_blanks(s, end);
        lemma_blanks_local(s, t, end);
        if next < s.len() {
            assert(long[next] == s[next]);
            if s[next] == ',' {
                lemma_elements_local(s, t, next + 1);
            }
        }
    }
}

} // verus!
