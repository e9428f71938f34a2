//! Text as sequences of characters: trimming, splitting, searching, numbers.

use vstd::prelude::*;
use vstd::slice::slice_subrange;
use vstd::utf8::encode_utf8;

verus! {

/// `String::push` appends one character to the end of the string and leaves what
/// was there before as it was.
pub assume_specification[ String::push ](text: &mut String, c: char)
    ensures
        final(text)@ == old(text)@.push(c),
;

// ---------------------------------------------------------------- strings and characters
/// The views of a sequence of values, in order.
pub open spec fn views<T: View>(items: Seq<T>) -> Seq<T::V> {
    items.map_values(|x: T| x@)
}

/// The characters of a text, if there is one.
pub open spec fn opt_chars(text: Option<&str>) -> Option<Seq<char>> {
    match text {
        Some(text) => Some(text@),
        None => None,
    }
}

/// The characters of `text`.
pub fn chars_of(text: &str) -> (chars: Vec<char>)
    ensures
        chars@ == text@,
{
    let mut chars: Vec<char> = Vec::new();
    for c in it: text.chars()
        invariant
            chars@ == it.seq().take(it.index() as int),
            it.seq() == text@,
    {
        chars.push(c);
    }
    chars
}

/// The string made of `chars`.
pub fn text_of(chars: &[char]) -> (text: String)
    ensures
        text@ == chars@,
{
    let mut text = String::new();
    let mut i: usize = 0;
    while i < chars.len()
        invariant
            i <= chars@.len(),
            text@ == chars@.take(i as int),
        decreases chars@.len() - i,
    {
        text.push(chars[i]);
        i += 1;
    }
    assert(chars@.take(i as int) == chars@);
    text
}

/// Whether two strings hold the same characters.
pub fn same(a: &str, b: &str) -> (yes: bool)
    ensures
        yes == (a@ == b@),
{
    let x = a.as_bytes();
    let y = b.as_bytes();
    proof {
        vstd::utf8::encode_utf8_decode_utf8(a@);
        vstd::utf8::encode_utf8_decode_utf8(b@);
    }
    if x.len() != y.len() {
        return false;
    }
    let mut i: usize = 0;
    while i < x.len()
        invariant
            i <= x.len(),
            x.len() == y.len(),
            x@ == encode_utf8(a@),
            y@ == encode_utf8(b@),
            forall|k: int| 0 <= k < i ==> x@[k] == y@[k],
        decreases x.len() - i,
    {
        if x[i] != y[i] {
            return false;
        }
        i += 1;
    }
    assert(x@ =~= y@);
    true
}

/// Whether `chars` spell the string `text`.
pub fn spells(chars: &[char], text: &str) -> (yes: bool)
    ensures
        yes == (chars@ == text@),
{
    let other = chars_of(text);
    same_chars(chars, other.as_slice())
}

/// Whether two slices hold the same characters.
pub fn same_chars(a: &[char], b: &[char]) -> (yes: bool)
    ensures
        yes == (a@ == b@),
{
    if a.len() != b.len() {
        return false;
    }
    let mut i: usize = 0;
    while i < a.len()
        invariant
            i <= a.len(),
            a.len() == b.len(),
            forall|k: int| 0 <= k < i ==> a@[k] == b@[k],
        decreases a.len() - i,
    {
        if a[i] != b[i] {
            return false;
        }
        i += 1;
    }
    assert(a@ =~= b@);
    true
}

// ---------------------------------------------------------------- prefixes and suffixes
/// Whether `part` stands in `text` at position `at`.
pub open spec fn occurs_at(text: Seq<char>, part: Seq<char>, at: int) -> bool {
    0 <= at && at + part.len() <= text.len() && text.subrange(at, at + part.len()) == part
}

/// What follows `prefix` in `text`, where `text` begins with it.
pub open spec fn without_prefix(text: Seq<char>, prefix: Seq<char>) -> Option<Seq<char>> {
    if prefix.is_prefix_of(text) {
        Some(text.skip(prefix.len() as int))
    } else {
        None
    }
}

/// What precedes `suffix` in `text`, where `text` ends with it.
pub open spec fn without_suffix(text: Seq<char>, suffix: Seq<char>) -> Option<Seq<char>> {
    if suffix.is_suffix_of(text) {
        Some(text.take(text.len() - suffix.len()))
    } else {
        None
    }
}

/// Whether `part` stands in `text` at position `at`.
pub fn found_at(text: &[char], part: &[char], at: usize) -> (yes: bool)
    ensures
        yes == occurs_at(text@, part@, at as int),
{
    if at > text.len() || part.len() > text.len() - at {
        return false;
    }
    same_chars(slice_subrange(text, at, at + part.len()), part)
}

/// What follows `prefix` in `text`, if `text` begins with it.
pub fn strip_prefix<'a>(text: &'a [char], prefix: &str) -> (rest: Option<&'a [char]>)
    ensures
        rest matches Some(r) ==> without_prefix(text@, prefix@) == Some(r@),
        rest is None ==> without_prefix(text@, prefix@) is None,
{
    let part = chars_of(prefix);
    if found_at(text, part.as_slice(), 0) {
        let rest = slice_subrange(text, part.len(), text.len());
        assert(rest@ == text@.skip(part@.len() as int));
        Some(rest)
    } else {
        None
    }
}

/// What precedes `suffix` in `text`, if `text` ends with it.
pub fn strip_suffix<'a>(text: &'a [char], suffix: &str) -> (rest: Option<&'a [char]>)
    ensures
        rest matches Some(r) ==> without_suffix(text@, suffix@) == Some(r@),
        rest is None ==> without_suffix(text@, suffix@) is None,
{
    let part = chars_of(suffix);
    if part.len() > text.len() {
        return None;
    }
    let at: usize = text.len() - part.len();
    if found_at(text, part.as_slice(), at) {
        let rest = slice_subrange(text, 0, at);
        assert(rest@ == text@.take(at as int));
        Some(rest)
    } else {
        None
    }
}

// ---------------------------------------------------------------- white space
/// Unicode's `White_Space` property.
pub open spec fn is_space(c: char) -> bool {
    let n = c as u32;
    ||| 0x9 <= n <= 0xD
    ||| n == 0x20
    ||| n == 0x85
    ||| n == 0xA0
    ||| n == 0x1680
    ||| 0x2000 <= n <= 0x200A
    ||| n == 0x2028
    ||| n == 0x2029
    ||| n == 0x202F
    ||| n == 0x205F
    ||| n == 0x3000
}

/// `text` without the white space it begins with.
pub open spec fn trimmed_start(text: Seq<char>) -> Seq<char>
    decreases text.len(),
{
    if text.len() > 0 && is_space(text[0]) {
        trimmed_start(text.skip(1))
    } else {
        text
    }
}

/// `text` without the white space it ends with.
pub open spec fn trimmed_end(text: Seq<char>) -> Seq<char>
    decreases text.len(),
{
    if text.len() > 0 && is_space(text.last()) {
        trimmed_end(text.drop_last())
    } else {
        text
    }
}

/// `text` without the white space around it.
pub open spec fn trimmed(text: Seq<char>) -> Seq<char> {
    trimmed_end(trimmed_start(text))
}

/// Whether `c` is white space.
pub fn is_whitespace(c: char) -> (yes: bool)
    ensures
        yes == is_space(c),
{
    let n: u32 = c as u32;
    (0x9 <= n && n <= 0xD) || n == 0x20 || n == 0x85 || n == 0xA0 || n == 0x1680 || (0x2000 <= n
        && n <= 0x200A) || n == 0x2028 || n == 0x2029 || n == 0x202F || n == 0x205F || n == 0x3000
}

/// `text` without the white space it begins with.
pub fn trim_start(text: &[char]) -> (rest: &[char])
    ensures
        rest@ == trimmed_start(text@),
{
    let mut at: usize = 0;
    assert(text@.skip(0) == text@);
    while at < text.len() && is_whitespace(text[at])
        invariant
            at <= text@.len(),
            trimmed_start(text@) == trimmed_start(text@.skip(at as int)),
        decreases text@.len() - at,
    {
        assert(text@.skip(at as int).skip(1) == text@.skip(at + 1));
        at += 1;
    }
    let rest = slice_subrange(text, at, text.len());
    assert(rest@ == text@.skip(at as int));
    rest
}

/// `text` without the white space it ends with.
pub fn trim_end(text: &[char]) -> (rest: &[char])
    ensures
        rest@ == trimmed_end(text@),
{
    let mut end: usize = text.len();
    assert(text@.take(end as int) == text@);
    while end > 0 && is_whitespace(text[end - 1])
        invariant
            end <= text@.len(),
            trimmed_end(text@) == trimmed_end(text@.take(end as int)),
        decreases end,
    {
        assert(text@.take(end as int).drop_last() == text@.take(end - 1));
        end -= 1;
    }
    let rest = slice_subrange(text, 0, end);
    assert(rest@ == text@.take(end as int));
    rest
}

/// `text` without the white space around it.
pub fn trim(text: &[char]) -> (rest: &[char])
    ensures
        rest@ == trimmed(text@),
{
    trim_end(trim_start(text))
}

/// `text` without the quotation marks around it.
pub open spec fn unquoted(text: Seq<char>) -> Seq<char>
    decreases text.len(),
{
    if text.len() > 0 && text[0] == '"' {
        unquoted(text.skip(1))
    } else if text.len() > 0 && text.last() == '"' {
        unquoted(text.drop_last())
    } else {
        text
    }
}

/// `text` without the quotation marks around it.
pub fn trim_quotes(text: &[char]) -> (rest: &[char])
    ensures
        rest@ == unquoted(text@),
{
    let mut rest: &[char] = text;
    while rest.len() > 0 && (rest[0] == '"' || rest[rest.len() - 1] == '"')
        invariant
            unquoted(text@) == unquoted(rest@),
        decreases rest@.len(),
    {
        if rest[0] == '"' {
            let next = slice_subrange(rest, 1, rest.len());
            assert(next@ == rest@.skip(1));
            rest = next;
        } else {
            let next = slice_subrange(rest, 0, rest.len() - 1);
            assert(next@ == rest@.drop_last());
            rest = next;
        }
    }
    rest
}

// ---------------------------------------------------------------- searching and splitting
/// The first position from `from` on at which `part` stands in `text`.
pub open spec fn index_from(text: Seq<char>, part: Seq<char>, from: int) -> Option<int>
    decreases text.len() + 1 - from,
{
    if from < 0 || from + part.len() > text.len() {
        None
    } else if occurs_at(text, part, from) {
        Some(from)
    } else {
        index_from(text, part, from + 1)
    }
}

/// `text` cut around the first `part` in it.
pub open spec fn cut_at_first(text: Seq<char>, part: Seq<char>) -> Option<(Seq<char>, Seq<char>)> {
    match index_from(text, part, 0) {
        Some(at) => Some((text.take(at), text.skip(at + part.len()))),
        None => None,
    }
}

/// The last position of `c` in `text`.
pub open spec fn last_index(text: Seq<char>, c: char) -> Option<int>
    decreases text.len(),
{
    if text.len() == 0 {
        None
    } else if text.last() == c {
        Some(text.len() - 1)
    } else {
        last_index(text.drop_last(), c)
    }
}

/// `text` cut around the last `c` in it.
pub open spec fn cut_at_last(text: Seq<char>, c: char) -> Option<(Seq<char>, Seq<char>)> {
    match last_index(text, c) {
        Some(at) => Some((text.take(at), text.skip(at + 1))),
        None => None,
    }
}

/// A position that `index_from` gives is one at which the part stands, and no
/// earlier one is.
pub proof fn lemma_index_from(text: Seq<char>, part: Seq<char>, from: int)
    requires
        0 <= from,
    ensures
        index_from(text, part, from) matches Some(at) ==> {
            &&& from <= at
            &&& occurs_at(text, part, at)
            &&& forall|k: int| from <= k < at ==> !occurs_at(text, part, k)
        },
        index_from(text, part, from) is None ==> forall|k: int|
            from <= k ==> !occurs_at(text, part, k),
    decreases text.len() + 1 - from,
{
    if from + part.len() <= text.len() && !occurs_at(text, part, from) {
        lemma_index_from(text, part, from + 1);
    }
}

/// A position that `last_index` gives holds the character, and no later one does.
pub proof fn lemma_last_index(text: Seq<char>, c: char)
    ensures
        last_index(text, c) matches Some(at) ==> {
            &&& 0 <= at < text.len()
            &&& text[at] == c
            &&& forall|k: int| at < k < text.len() ==> text[k] != c
        },
        last_index(text, c) is None ==> !text.contains(c),
    decreases text.len(),
{
    if text.len() > 0 && text.last() != c {
        lemma_last_index(text.drop_last(), c);
        assert(forall|k: int| 0 <= k < text.len() - 1 ==> text.drop_last()[k] == text[k]);
        if last_index(text.drop_last(), c) is None {
            if text.contains(c) {
                let k = choose|k: int| 0 <= k < text.len() && text[k] == c;
                assert(text.drop_last()[k] == c);
            }
        }
    }
}

/// The first position from `from` on at which `part` stands in `text`.
pub fn find_from(text: &[char], part: &[char], from: usize) -> (at: Option<usize>)
    ensures
        at matches Some(i) ==> index_from(text@, part@, from as int) == Some(i as int),
        at is None ==> index_from(text@, part@, from as int) is None,
{
    if from > text.len() || part.len() > text.len() - from {
        return None;
    }
    let last: usize = text.len() - part.len();
    let mut at: usize = from;
    while at <= last
        invariant
            from <= at <= last + 1,
            last + part@.len() == text@.len(),
            index_from(text@, part@, from as int) == index_from(text@, part@, at as int),
        decreases last + 1 - at,
    {
        if found_at(text, part, at) {
            return Some(at);
        }
        if at == last {
            assert(index_from(text@, part@, at + 1) is None);
            return None;
        }
        at += 1;
    }
    None
}

/// `text` cut around the first `part` in it.
pub fn split_once<'a>(text: &'a [char], part: &str) -> (halves: Option<(&'a [char], &'a [char])>)
    ensures
        halves matches Some((a, b)) ==> cut_at_first(text@, part@) == Some((a@, b@)),
        halves is None ==> cut_at_first(text@, part@) is None,
{
    let needle = chars_of(part);
    let total: usize = text.len();
    match find_from(text, needle.as_slice(), 0) {
        Some(at) => {
            proof {
                lemma_index_from(text@, needle@, 0);
            }
            let a = slice_subrange(text, 0, at);
            let b = slice_subrange(text, at + needle.len(), total);
            assert(a@ == text@.take(at as int));
            assert(b@ == text@.skip(at + needle@.len()));
            Some((a, b))
        },
        None => None,
    }
}

/// `text` cut around the last `c` in it.
pub fn rsplit_once(text: &[char], c: char) -> (halves: Option<(&[char], &[char])>)
    ensures
        halves matches Some((a, b)) ==> cut_at_last(text@, c) == Some((a@, b@)),
        halves is None ==> cut_at_last(text@, c) is None,
{
    let mut end: usize = text.len();
    assert(text@.take(end as int) == text@);
    while end > 0
        invariant
            end <= text@.len(),
            last_index(text@, c) == last_index(text@.take(end as int), c),
        decreases end,
    {
        assert(text@.take(end as int).last() == text@[end - 1]);
        if text[end - 1] == c {
            let a = slice_subrange(text, 0, end - 1);
            let b = slice_subrange(text, end, text.len());
            assert(a@ == text@.take(end - 1));
            assert(b@ == text@.skip(end as int));
            return Some((a, b));
        }
        assert(text@.take(end as int).drop_last() == text@.take(end - 1));
        end -= 1;
    }
    None
}

/// A line without the carriage return that stood before its line feed.
pub open spec fn without_return(line: Seq<char>) -> Seq<char> {
    if line.len() > 0 && line.last() == '\r' {
        line.drop_last()
    } else {
        line
    }
}

/// The lines of `text`: each ends at a line feed, which is dropped together with a
/// carriage return before it. The last line need not end in one.
pub open spec fn lines(text: Seq<char>) -> Seq<Seq<char>>
    decreases text.len(),
{
    if text.len() == 0 {
        seq![]
    } else {
        match index_from(text, seq!['\n'], 0) {
            Some(at) => if 0 <= at < text.len() {
                seq![without_return(text.take(at))] + lines(text.skip(at + 1))
            } else {
                seq![]
            },
            None => seq![text],
        }
    }
}

/// The lines of `text`.
pub fn split_lines(text: &[char]) -> (found: Vec<&[char]>)
    ensures
        views(found@) == lines(text@),
{
    let mut found: Vec<&[char]> = Vec::new();
    let mut rest: &[char] = text;
    assert(views(found@) + lines(rest@) == lines(text@));
    while rest.len() > 0
        invariant
            views(found@) + lines(rest@) == lines(text@),
        decreases rest@.len(),
    {
        let feed: Vec<char> = vec!['\n'];
        assert(feed@ == seq!['\n']);
        let ghost before = found@;
        match find_from(rest, feed.as_slice(), 0) {
            Some(at) => {
                proof {
                    lemma_index_from(rest@, feed@, 0);
                }
                let end: usize = if at > 0 && rest[at - 1] == '\r' { at - 1 } else { at };
                let line = slice_subrange(rest, 0, end);
                assert(line@ == without_return(rest@.take(at as int)));
                found.push(line);
                let next = slice_subrange(rest, at + 1, rest.len());
                assert(next@ == rest@.skip(at + 1));
                assert(views(found@) == views(before) + seq![line@]);
                rest = next;
            },
            None => {
                found.push(rest);
                assert(views(found@) == views(before) + seq![rest@]);
                return found;
            },
        }
    }
    found
}

// ---------------------------------------------------------------- single characters
/// `text` with every hyphen turned into an underscore, as rustc names its files.
pub open spec fn underscored(text: Seq<char>) -> Seq<char> {
    text.map_values(
        |c: char|
            if c == '-' {
                '_'
            } else {
                c
            },
    )
}

/// No hyphen is left.
pub proof fn lemma_underscored(text: Seq<char>)
    ensures
        underscored(text).len() == text.len(),
        !underscored(text).contains('-'),
        !text.contains('-') ==> underscored(text) == text,
{
    assert forall|i: int| 0 <= i < text.len() implies #[trigger] underscored(text)[i] != '-' by {}
    if !text.contains('-') {
        assert forall|i: int| 0 <= i < text.len() implies underscored(text)[i] == text[i] by {
            assert(text.contains(text[i]));
        }
        assert(underscored(text) == text);
    }
}


/// `text` with every hyphen turned into an underscore.
pub fn underscore(text: &[char]) -> (out: String)
    ensures
        out@ == underscored(text@),
{
    let mut out = String::new();
    let mut i: usize = 0;
    while i < text.len()
        invariant
            i <= text@.len(),
            out@ == underscored(text@).take(i as int),
        decreases text@.len() - i,
    {
        if text[i] == '-' {
            out.push('_');
        } else {
            out.push(text[i]);
        }
        i += 1;
    }
    assert(underscored(text@).take(i as int) == underscored(text@));
    out
}

/// The letter `c` in lower case if it is an upper case ASCII letter, else `c`.
pub open spec fn ascii_lower(c: char) -> char {
    if 'A' <= c <= 'Z' {
        (c as u8 + 32) as char
    } else {
        c
    }
}

/// Whether two texts differ in nothing but the case of their ASCII letters.
pub open spec fn same_ignoring_case(a: Seq<char>, b: Seq<char>) -> bool {
    a.len() == b.len() && forall|i: int|
        0 <= i < a.len() ==> ascii_lower(#[trigger] a[i]) == ascii_lower(b[i])
}

fn to_ascii_lower(c: char) -> (lower: char)
    ensures
        lower == ascii_lower(c),
{
    if 'A' <= c && c <= 'Z' {
        (c as u8 + 32) as char
    } else {
        c
    }
}

/// Whether `text` is `word` but for the case of ASCII letters.
pub fn eq_ignore_case(text: &[char], word: &str) -> (yes: bool)
    ensures
        yes == same_ignoring_case(text@, word@),
{
    let other = chars_of(word);
    if text.len() != other.len() {
        return false;
    }
    let mut i: usize = 0;
    while i < text.len()
        invariant
            i <= text@.len(),
            text@.len() == other@.len(),
            other@ == word@,
            forall|k: int| 0 <= k < i ==> ascii_lower(#[trigger] text@[k]) == ascii_lower(other@[k]),
        decreases text@.len() - i,
    {
        if to_ascii_lower(text[i]) != to_ascii_lower(other[i]) {
            assert(ascii_lower(text@[i as int]) != ascii_lower(word@[i as int]));
            return false;
        }
        i += 1;
    }
    true
}

// ---------------------------------------------------------------- numbers
/// The digit `d` as a character.
pub open spec fn digit(d: nat) -> char {
    (48 + d) as char
}

/// `n` in decimal.
pub open spec fn decimal(n: nat) -> Seq<char>
    decreases n,
{
    if n < 10 {
        seq![digit(n)]
    } else {
        decimal(n / 10).push(digit(n % 10))
    }
}

/// Appends `n` in decimal.
pub fn push_decimal(out: &mut String, n: u128)
    ensures
        final(out)@ == old(out)@ + decimal(n as nat),
    decreases n,
{
    if n >= 10 {
        push_decimal(out, n / 10);
    }
    out.push((48 + (n % 10) as u8) as char);
}

/// The value of a run of decimal digits.
pub open spec fn digits_value(digits: Seq<char>) -> nat
    decreases digits.len(),
{
    if digits.len() == 0 {
        0
    } else {
        digits_value(digits.drop_last()) * 10 + (digits.last() as u32 - 48) as nat
    }
}

pub open spec fn is_digit(c: char) -> bool {
    '0' <= c <= '9'
}

pub open spec fn all_digits(text: Seq<char>) -> bool {
    forall|i: int| 0 <= i < text.len() ==> is_digit(#[trigger] text[i])
}

/// The number that `text` spells: decimal digits, at least one, after at most one
/// plus sign, with a value of at most `max`.
pub open spec fn number_up_to(text: Seq<char>, max: nat) -> Option<nat> {
    let digits = if text.len() > 0 && text[0] == '+' {
        text.skip(1)
    } else {
        text
    };
    if digits.len() > 0 && all_digits(digits) && digits_value(digits) <= max {
        Some(digits_value(digits))
    } else {
        None
    }
}

proof fn lemma_digits_value_grows(digits: Seq<char>, n: int)
    requires
        0 <= n <= digits.len(),
        all_digits(digits),
    ensures
        digits_value(digits.take(n)) <= digits_value(digits),
    decreases digits.len() - n,
{
    if n < digits.len() {
        lemma_digits_value_grows(digits, n + 1);
        assert(digits.take(n + 1).drop_last() == digits.take(n));
        assert(is_digit(digits[n]));
    } else {
        assert(digits.take(n) == digits);
    }
}

/// The number that `text` spells, if it spells one that fits.
pub fn parse_usize(text: &[char]) -> (number: Option<usize>)
    ensures
        number matches Some(n) ==> number_up_to(text@, usize::MAX as nat) == Some(n as nat),
        number is None ==> number_up_to(text@, usize::MAX as nat) is None,
{
    let start: usize = if text.len() > 0 && text[0] == '+' { 1 } else { 0 };
    let ghost digits = text@.skip(start as int);
    assert(start == 0 ==> digits == text@);
    if start == text.len() {
        return None;
    }
    let mut n: usize = 0;
    let mut i: usize = start;
    assert(digits.take(0) == Seq::<char>::empty());
    while i < text.len()
        invariant
            start <= i <= text@.len(),
            start < text@.len(),
            start == 0 || start == 1,
            start == 1 <==> text@.len() > 0 && text@[0] == '+',
            digits == text@.skip(start as int),
            start == 0 ==> digits == text@,
            forall|k: int| 0 <= k < i - start ==> is_digit(#[trigger] digits[k]),
            n == digits_value(digits.take(i - start)),
        decreases text@.len() - i,
    {
        let c: char = text[i];
        assert(digits[i - start] == c);
        if c < '0' || '9' < c {
            assert(!is_digit(digits[i - start]));
            return None;
        }
        let d: usize = (c as u32 - 48) as usize;
        assert(digits.take(i + 1 - start).drop_last() == digits.take(i - start));
        assert(digits_value(digits.take(i + 1 - start)) == n * 10 + d);
        if n > (usize::MAX - d) / 10 {
            proof {
                if all_digits(digits) {
                    lemma_digits_value_grows(digits, i + 1 - start);
                }
            }
            return None;
        }
        n = n * 10 + d;
        i += 1;
    }
    assert(digits.take(i - start) == digits);
    Some(n)
}

// ---------------------------------------------------------------- columns
/// `n` spaces.
pub open spec fn spaces(n: int) -> Seq<char> {
    Seq::new(
        if n > 0 {
            n as nat
        } else {
            0
        },
        |i: int| ' ',
    )
}

/// `text` followed by the spaces that make it at least `width` characters long.
pub open spec fn left_in(text: Seq<char>, width: int) -> Seq<char> {
    text + spaces(width - text.len())
}

/// `text` after the spaces that make it at least `width` characters long.
pub open spec fn right_in(text: Seq<char>, width: int) -> Seq<char> {
    spaces(width - text.len()) + text
}

fn push_spaces(out: &mut String, n: usize)
    ensures
        final(out)@ == old(out)@ + spaces(n as int),
{
    let ghost before = out@;
    let mut i: usize = 0;
    assert(before + spaces(0) == before);
    while i < n
        invariant
            i <= n,
            out@ == before + spaces(i as int),
        decreases n - i,
    {
        out.push(' ');
        i += 1;
        assert(before + spaces(i as int) == (before + spaces(i - 1)).push(' '));
    }
}

/// Appends `text`, filled up with spaces on the right to `width` characters.
pub fn push_left(out: &mut String, text: &str, width: usize)
    ensures
        final(out)@ == old(out)@ + left_in(text@, width as int),
{
    let n: usize = text.unicode_len();
    out.append(text);
    if n < width {
        push_spaces(out, width - n);
    }
    assert(out@ == old(out)@ + left_in(text@, width as int));
}

/// Appends `text`, filled up with spaces on the left to `width` characters.
pub fn push_right(out: &mut String, text: &str, width: usize)
    ensures
        final(out)@ == old(out)@ + right_in(text@, width as int),
{
    let n: usize = text.unicode_len();
    if n < width {
        push_spaces(out, width - n);
    }
    out.append(text);
    assert(out@ == old(out)@ + right_in(text@, width as int));
}

} // verus!
