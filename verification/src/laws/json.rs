//! Laws of reading JSON: what is written reads back.

use crate::json::{
    document, elements, escape, hex4, hex_digit, hex_value, is_blank, is_exponent, is_fraction,
    is_number, is_number_char, members, past_blanks, past_number, stands, string, string_body,
    unsigned, value, JsonView,
};
use crate::spacing::{
    all_blank, lemma_blanks, lemma_blanks_are, lemma_elements_moved, lemma_members_moved,
    lemma_string_body_moved, lemma_string_end, lemma_value_end, lemma_value_moved, moved,
};
use crate::text::{all_digits, occurs_at};
use vstd::prelude::*;

verus! {

// ---------------------------------------------------------------- writing
/// A character as it stands in a string: quotes and backslashes after a backslash.
pub open spec fn one_written(c: char) -> Seq<char> {
    if c == '"' || c == '\\' {
        seq!['\\', c]
    } else {
        seq![c]
    }
}

/// A text as it stands in a string.
pub open spec fn text_written(text: Seq<char>) -> Seq<char>
    decreases text.len(),
{
    if text.len() == 0 {
        Seq::empty()
    } else {
        one_written(text[0]) + text_written(text.skip(1))
    }
}

/// A text between quotes.
pub open spec fn quoted(text: Seq<char>) -> Seq<char> {
    seq!['"'] + text_written(text) + seq!['"']
}

/// A document as text, with `gap` between all its tokens.
pub open spec fn written(v: JsonView, gap: Seq<char>) -> Seq<char>
    decreases v, 0int,
{
    match v {
        JsonView::Null => "null"@,
        JsonView::Bool(b) => if b {
            "true"@
        } else {
            "false"@
        },
        JsonView::Num(text) => text,
        JsonView::Str(text) => quoted(text),
        JsonView::Arr(items) => if items.len() == 0 {
            seq!['['] + gap + seq![']']
        } else {
            seq!['['] + gap + items_written(items, gap) + seq![']']
        },
        JsonView::Obj(fields) => if fields.len() == 0 {
            seq!['{'] + gap + seq!['}']
        } else {
            seq!['{'] + gap + fields_written(fields, gap) + seq!['}']
        },
    }
}

/// The elements of an array as text, with commas between them.
pub open spec fn items_written(items: Seq<JsonView>, gap: Seq<char>) -> Seq<char>
    decreases items, 1int,
{
    if items.len() == 0 {
        Seq::empty()
    } else if items.len() == 1 {
        written(items[0], gap) + gap
    } else {
        written(items[0], gap) + gap + seq![','] + gap + items_written(
            items.subrange(1, items.len() as int),
            gap,
        )
    }
}

/// The fields of an object as text, with commas between them.
pub open spec fn fields_written(fields: Seq<(Seq<char>, JsonView)>, gap: Seq<char>) -> Seq<char>
    decreases fields, 1int,
{
    if fields.len() == 0 {
        Seq::empty()
    } else if fields.len() == 1 {
        quoted(fields[0].0) + gap + seq![':'] + gap + written(fields[0].1, gap) + gap
    } else {
        quoted(fields[0].0) + gap + seq![':'] + gap + written(fields[0].1, gap) + gap + seq![',']
            + gap + fields_written(fields.subrange(1, fields.len() as int), gap)
    }
}

/// Whether every number in a document is one.
pub open spec fn numbers_hold(v: JsonView) -> bool
    decreases v, 0int,
{
    match v {
        JsonView::Num(text) => is_number(text),
        JsonView::Arr(items) => items_hold(items),
        JsonView::Obj(fields) => fields_hold(fields),
        _ => true,
    }
}

/// Whether every number in the elements is one.
pub open spec fn items_hold(items: Seq<JsonView>) -> bool
    decreases items, 1int,
{
    items.len() == 0 || (numbers_hold(items[0]) && items_hold(
        items.subrange(1, items.len() as int),
    ))
}

/// Whether every number in the fields is one.
pub open spec fn fields_hold(fields: Seq<(Seq<char>, JsonView)>) -> bool
    decreases fields, 1int,
{
    fields.len() == 0 || (numbers_hold(fields[0].1) && fields_hold(
        fields.subrange(1, fields.len() as int),
    ))
}

// ---------------------------------------------------------------- strings
/// A result with a text put before what was found.
pub open spec fn after_text(text: Seq<char>, n: int, found: Option<(Seq<char>, int)>) -> Option<
    (Seq<char>, int),
> {
    match found {
        Some((rest, end)) => Some((text + rest, end + n)),
        None => None,
    }
}

/// Characters of a string, as they are written, stand before whatever follows them.
pub proof fn lemma_text_reads(text: Seq<char>, s: Seq<char>)
    ensures
        string_body(text_written(text) + s, 0) == after_text(
            text,
            text_written(text).len() as int,
            string_body(s, 0),
        ),
    decreases text.len(),
{
    if text.len() == 0 {
        assert(text_written(text) + s =~= s);
        if let Some((rest, end)) = string_body(s, 0) {
            assert(text + rest =~= rest);
        }
    } else {
        let c = text[0];
        let rest = text.skip(1);
        let tail = text_written(rest) + s;
        let all = text_written(text) + s;
        let w = one_written(c);
        assert(all =~= w + tail);
        lemma_text_reads(rest, s);
        lemma_string_body_moved(w, tail, 0);
        assert(all[0] == w[0]);
        if w.len() == 2 {
            assert(all[1] == c);
        }
        if let Some((more, end)) = string_body(s, 0) {
            assert(seq![c] + (rest + more) =~= text + more);
        }
    }
}

proof fn lemma_quoted_reads(text: Seq<char>, t: Seq<char>)
    ensures
        string(quoted(text) + t, 0) == Some((text, quoted(text).len() as int)),
{
    let close = seq!['"'] + t;
    let open = seq!['"'];
    let inner = text_written(text) + close;
    lemma_text_reads(text, close);
    assert(quoted(text) + t =~= open + inner);
    assert(close[0] == '"');
    assert(string_body(close, 0) == Some((Seq::<char>::empty(), 1int)));
    assert(text + Seq::<char>::empty() =~= text);
    lemma_string_body_moved(open, inner, 0);
    assert((open + inner)[0] == '"');
}

/// Whether a string between quotes reads as `text`.
pub open spec fn spells(inner: Seq<char>, text: Seq<char>) -> bool {
    document(seq!['"'] + inner + seq!['"']) == Some(JsonView::Str(text))
}

proof fn lemma_spells(a: Seq<char>, w: Seq<char>, x: char, b: Seq<char>)
    requires
        w.len() > 0,
        w[0] == '\\',
        forall|t: Seq<char>| #[trigger] escape(w + t, 1) == Some((x, w.len() as int)),
    ensures
        spells(text_written(a) + w + text_written(b), a + seq![x] + b),
{
    let close = seq!['"'];
    let tail = text_written(b) + close;
    lemma_text_reads(b, close);
    assert(string_body(close, 0) == Some((Seq::<char>::empty(), 1int)));
    assert(b + Seq::<char>::empty() =~= b);
    let mid = w + tail;
    assert(mid[0] == '\\');
    lemma_string_body_moved(w, tail, 0);
    assert(escape(mid, 1) == Some((x, w.len() as int)));
    assert(escape(mid, 1) is Some);
    assert(string_body(mid, 0) == Some((seq![x] + b, mid.len() as int))) by {
        assert(w.len() > 1) by {
            if w.len() == 1 {
                assert(escape(w + Seq::<char>::empty(), 1) == Some((x, 1int)));
            }
        }
    }
    lemma_text_reads(a, mid);
    assert(a + (seq![x] + b) =~= a + seq![x] + b);
    let inner = text_written(a) + mid;
    let open = seq!['"'];
    let all = open + inner;
    assert(all =~= seq!['"'] + (text_written(a) + w + text_written(b)) + seq!['"']);
    lemma_string_body_moved(open, inner, 0);
    assert(all[0] == '"');
    assert(past_blanks(all, 0) == 0);
    assert(string(all, 0) == Some((a + seq![x] + b, all.len() as int)));
    assert(past_blanks(all, all.len() as int) == all.len());
}

proof fn lemma_spells_short(a: Seq<char>, c: char, x: char, b: Seq<char>)
    requires
        (c == x && (c == '"' || c == '\\' || c == '/')) || (c == 'b' && x == '\u{8}') || (c == 'f'
            && x == '\u{C}') || (c == 'n' && x == '\u{A}') || (c == 'r' && x == '\u{D}') || (c
            == 't' && x == '\u{9}'),
    ensures
        spells(text_written(a) + seq!['\\', c] + text_written(b), a + seq![x] + b),
{
    let w = seq!['\\', c];
    assert forall|t: Seq<char>| #[trigger] escape(w + t, 1) == Some((x, w.len() as int)) by {
        assert((w + t)[1] == c);
    }
    lemma_spells(a, w, x, b);
}

/// A character after a backslash stands for itself, for a control character, or for
/// nothing at all.
pub proof fn lemma_escapes(a: Seq<char>, b: Seq<char>)
    ensures
        spells(text_written(a) + seq!['\\', '"'] + text_written(b), a + seq!['"'] + b),
        spells(text_written(a) + seq!['\\', '\\'] + text_written(b), a + seq!['\\'] + b),
        spells(text_written(a) + seq!['\\', '/'] + text_written(b), a + seq!['/'] + b),
        spells(text_written(a) + seq!['\\', 'b'] + text_written(b), a + seq!['\u{8}'] + b),
        spells(text_written(a) + seq!['\\', 'f'] + text_written(b), a + seq!['\u{C}'] + b),
        spells(text_written(a) + seq!['\\', 'n'] + text_written(b), a + seq!['\u{A}'] + b),
        spells(text_written(a) + seq!['\\', 'r'] + text_written(b), a + seq!['\u{D}'] + b),
        spells(text_written(a) + seq!['\\', 't'] + text_written(b), a + seq!['\u{9}'] + b),
{
    lemma_spells_short(a, '"', '"', b);
    lemma_spells_short(a, '\\', '\\', b);
    lemma_spells_short(a, '/', '/', b);
    lemma_spells_short(a, 'b', '\u{8}', b);
    lemma_spells_short(a, 'f', '\u{C}', b);
    lemma_spells_short(a, 'n', '\u{A}', b);
    lemma_spells_short(a, 'r', '\u{D}', b);
    lemma_spells_short(a, 't', '\u{9}', b);
}

/// Any other character after a backslash makes the document none.
pub proof fn lemma_no_escape(a: Seq<char>, c: char, s: Seq<char>)
    requires
        c != '"' && c != '\\' && c != '/' && c != 'b' && c != 'f' && c != 'n' && c != 'r' && c
            != 't' && c != 'u',
    ensures
        document(seq!['"'] + text_written(a) + seq!['\\', c] + s) is None,
{
    let mid = seq!['\\', c] + s;
    assert(mid[0] == '\\' && mid[1] == c);
    lemma_text_reads(a, mid);
    let inner = text_written(a) + mid;
    let open = seq!['"'];
    let all = open + inner;
    assert(all =~= seq!['"'] + text_written(a) + seq!['\\', c] + s);
    lemma_string_body_moved(open, inner, 0);
    assert(all[0] == '"');
    assert(past_blanks(all, 0) == 0);
}

/// Hexadecimal digits count as usual, large and small letters alike, the last one least.
pub proof fn lemma_hex(c: char, digits: Seq<char>, high: nat, low: nat)
    ensures
        '0' <= c && c <= '9' ==> hex_digit(c) == Some((c as u32 - '0' as u32) as nat),
        'a' <= c && c <= 'f' ==> hex_digit(c) == Some((c as u32 - 'a' as u32 + 10) as nat),
        'A' <= c && c <= 'F' ==> hex_digit(c) == Some((c as u32 - 'A' as u32 + 10) as nat),
        !('0' <= c && c <= '9') && !('a' <= c && c <= 'f') && !('A' <= c && c <= 'F')
            ==> hex_digit(c) is None && hex_value(digits.push(c)) is None,
        hex_value(Seq::<char>::empty()) == Some(0nat),
        hex_value(digits) == Some(high) && hex_digit(c) == Some(low) ==> hex_value(digits.push(c))
            == Some(high * 16 + low),
{
    assert(digits.push(c).drop_last() =~= digits);
}

/// `\u` and four hexadecimal digits stand for the character with that code; half of a
/// surrogate pair, the second one, stands for none.
pub proof fn lemma_code_escape(a: Seq<char>, h: Seq<char>, code: nat, b: Seq<char>)
    requires
        h.len() == 4 && h[0] != '+' && hex_value(h) == Some(code),
        code < 0x10000,
    ensures
        code < 0xD800 || code >= 0xE000 ==> spells(
            text_written(a) + (seq!['\\', 'u'] + h) + text_written(b),
            a + seq![(code as u32) as char] + b,
        ),
        0xDC00 <= code < 0xE000 ==> spells(
            text_written(a) + (seq!['\\', 'u'] + h) + text_written(b),
            a + seq!['\u{FFFD}'] + b,
        ),
{
    let w = seq!['\\', 'u'] + h;
    let x = if code < 0xD800 || code >= 0xE000 {
        (code as u32) as char
    } else {
        '\u{FFFD}'
    };
    if code < 0xD800 || code >= 0xDC00 {
        assert forall|t: Seq<char>| #[trigger]
            escape(w + t, 1) == Some((x, w.len() as int)) by {
            let s = w + t;
            assert(s[1] == 'u');
            assert(s.subrange(2, 6) =~= h);
            assert(s[2] == h[0]);
            assert(hex4(s, 2) == Some(code));
        }
        lemma_spells(a, w, x, b);
    }
}

/// The first of the four digits may be a plus sign, which counts for nothing.
pub proof fn lemma_plus_escape(a: Seq<char>, h: Seq<char>, code: nat, b: Seq<char>)
    requires
        h.len() == 3 && hex_value(h) == Some(code),
        code < 0x1000,
    ensures
        spells(
            text_written(a) + (seq!['\\', 'u', '+'] + h) + text_written(b),
            a + seq![(code as u32) as char] + b,
        ),
{
    let w = seq!['\\', 'u', '+'] + h;
    let x = (code as u32) as char;
    assert forall|t: Seq<char>| #[trigger] escape(w + t, 1) == Some((x, w.len() as int)) by {
        let s = w + t;
        assert(s[1] == 'u');
        assert(s.subrange(3, 6) =~= h);
        assert(s[2] == '+');
        assert(hex4(s, 2) == Some(code));
    }
    lemma_spells(a, w, x, b);
}

proof fn lemma_pair(h: Seq<char>, high: nat, l: Seq<char>, low: nat, t: Seq<char>)
    requires
        h.len() == 4 && h[0] != '+' && hex_value(h) == Some(high),
        l.len() == 4 && l[0] != '+' && hex_value(l) == Some(low),
        0xD800 <= high < 0xDC00,
    ensures
        ({
            let s = seq!['\\', 'u'] + h + seq!['\\', 'u'] + l + t;
            let code = (0x10000 + (high - 0xD800) * 0x400 + (low - 0xDC00)) as u32;
            &&& 0xDC00 <= low < 0xE000 ==> escape(s, 1) == Some((code as char, 12int))
            &&& low < 0xDC00 ==> escape(s, 1) is None
        }),
{
    let s = seq!['\\', 'u'] + h + seq!['\\', 'u'] + l + t;
    assert(s[1] == 'u');
    assert(s.subrange(2, 6) =~= h);
    assert(s[2] == h[0]);
    assert(hex4(s, 2) == Some(high));
    assert(s.subrange(8, 12) =~= l);
    assert(s[8] == l[0]);
    assert(hex4(s, 8) == Some(low));
    assert(s.subrange(6, 8) =~= seq!['\\', 'u']);
    assert(occurs_at(s, seq!['\\', 'u'], 6));
}

/// Two `\u` escapes that make a surrogate pair stand for one character.
pub proof fn lemma_pair_escape(
    a: Seq<char>,
    h: Seq<char>,
    high: nat,
    l: Seq<char>,
    low: nat,
    b: Seq<char>,
)
    requires
        h.len() == 4 && h[0] != '+' && hex_value(h) == Some(high),
        l.len() == 4 && l[0] != '+' && hex_value(l) == Some(low),
        0xD800 <= high < 0xDC00,
        0xDC00 <= low < 0xE000,
    ensures
        spells(
            text_written(a) + (seq!['\\', 'u'] + h + seq!['\\', 'u'] + l) + text_written(b),
            a + seq![
                ((0x10000 + (high - 0xD800) * 0x400 + (low - 0xDC00)) as u32) as char,
            ] + b,
        ),
{
    let p = seq!['\\', 'u'] + h + seq!['\\', 'u'] + l;
    let x = ((0x10000 + (high - 0xD800) * 0x400 + (low - 0xDC00)) as u32) as char;
    assert forall|t: Seq<char>| #[trigger] escape(p + t, 1) == Some((x, p.len() as int)) by {
        lemma_pair(h, high, l, low, t);
    }
    lemma_spells(a, p, x, b);
}

/// A first half of a surrogate pair before an escape that is no second half makes the
/// document none.
pub proof fn lemma_broken_pair(
    a: Seq<char>,
    h: Seq<char>,
    high: nat,
    l: Seq<char>,
    low: nat,
    b: Seq<char>,
)
    requires
        h.len() == 4 && h[0] != '+' && hex_value(h) == Some(high),
        l.len() == 4 && l[0] != '+' && hex_value(l) == Some(low),
        0xD800 <= high < 0xDC00,
        low < 0xDC00,
    ensures
        document(
            seq!['"'] + text_written(a) + (seq!['\\', 'u'] + h + seq!['\\', 'u'] + l) + b,
        ) is None,
{
    let p = seq!['\\', 'u'] + h + seq!['\\', 'u'] + l;
    let mid = p + b;
    lemma_pair(h, high, l, low, b);
    assert(mid[0] == '\\');
    lemma_text_reads(a, mid);
    let inner = text_written(a) + mid;
    let open = seq!['"'];
    let all = open + inner;
    assert(all =~= seq!['"'] + text_written(a) + p + b);
    lemma_string_body_moved(open, inner, 0);
    assert(all[0] == '"');
    assert(past_blanks(all, 0) == 0);
}

/// A string without a closing quote makes the document none.
pub proof fn lemma_open_string(text: Seq<char>)
    ensures
        document(seq!['"'] + text_written(text)) is None,
{
    let none = Seq::<char>::empty();
    lemma_text_reads(text, none);
    assert(text_written(text) + none =~= text_written(text));
    let open = seq!['"'];
    let all = open + text_written(text);
    lemma_string_body_moved(open, text_written(text), 0);
    assert(all[0] == '"');
    assert(past_blanks(all, 0) == 0);
}

// ---------------------------------------------------------------- numbers
/// Numbers are digits with or without a sign, a point and an exponent.
pub proof fn lemma_numbers(d: Seq<char>, f: Seq<char>, x: Seq<char>)
    requires
        d.len() > 0,
        x.len() > 0,
        forall|i: int| 0 <= i < d.len() ==> '0' <= #[trigger] d[i] && d[i] <= '9',
        forall|i: int| 0 <= i < f.len() ==> '0' <= #[trigger] f[i] && f[i] <= '9',
        forall|i: int| 0 <= i < x.len() ==> '0' <= #[trigger] x[i] && x[i] <= '9',
    ensures
        is_number(d),
        is_number(seq!['-'] + d),
        is_number(seq!['+'] + d),
        is_number(seq!['.'] + d),
        is_number(d + seq!['e'] + x),
        is_number(d + seq!['.'] + f),
        is_number(seq!['-'] + (d + seq!['.'] + f)),
        is_number(d + seq!['.'] + f + seq!['e'] + x),
        is_number(d + seq!['.'] + f + seq!['E'] + x),
        is_number(d + seq!['.'] + f + seq!['e', '-'] + x),
        is_number(d + seq!['.'] + f + seq!['e', '+'] + x),
        !is_number(Seq::<char>::empty()),
        !is_number(seq!['-']),
        !is_number(seq!['.']),
{
    assert(all_digits(d) && all_digits(f) && all_digits(x));
    assert(unsigned(d) =~= d);
    assert((seq!['-'] + d).skip(1) =~= d);
    assert((seq!['+'] + d).skip(1) =~= d);
    assert(is_fraction(d));
    lemma_exponent(d, 'e', x, x);
    let q = seq!['.'] + d;
    assert(q[0] == '.');
    assert(q.take(0) =~= Seq::<char>::empty());
    assert(q.skip(1) =~= d);
    assert(is_fraction(q));
    assert(unsigned(q) =~= q);
    let p = d + seq!['.'] + f;
    let n = d.len() as int;
    assert(p[n] == '.');
    assert(p.take(n) =~= d);
    assert(p.skip(n + 1) =~= f);
    assert(is_fraction(p));
    assert(unsigned(p) =~= p);
    assert((seq!['-'] + p).skip(1) =~= p);
    lemma_exponent(p, 'e', x, x);
    lemma_exponent(p, 'E', x, x);
    assert((seq!['-'] + x).skip(1) =~= x);
    assert((seq!['+'] + x).skip(1) =~= x);
    lemma_exponent(p, 'e', seq!['-'] + x, x);
    lemma_exponent(p, 'e', seq!['+'] + x, x);
    assert(p + seq!['e', '-'] + x =~= p + seq!['e'] + (seq!['-'] + x));
    assert(p + seq!['e', '+'] + x =~= p + seq!['e'] + (seq!['+'] + x));
    let none = Seq::<char>::empty();
    assert(unsigned(none) =~= none);
    assert(unsigned(seq!['-']) =~= none);
    assert(!is_fraction(none));
    assert(unsigned(seq!['.']) =~= seq!['.']);
    assert(!all_digits(seq!['.'])) by {
        assert(seq!['.'][0] == '.');
    }
}

proof fn lemma_exponent(p: Seq<char>, e: char, tail: Seq<char>, x: Seq<char>)
    requires
        p.len() > 0,
        p[0] != '+' && p[0] != '-',
        is_fraction(p),
        e == 'e' || e == 'E',
        unsigned(tail) == x,
        x.len() > 0,
        all_digits(x),
    ensures
        is_number(p + seq![e] + tail),
{
    let all = p + seq![e] + tail;
    let n = p.len() as int;
    assert(all[0] == p[0]);
    assert(unsigned(all) =~= all);
    assert(all[n] == e);
    assert(all.take(n) =~= p);
    assert(all.skip(n + 1) =~= tail);
}

proof fn lemma_fraction_chars(text: Seq<char>, k: int)
    requires
        is_fraction(text),
        0 <= k < text.len(),
    ensures
        is_number_char(text[k]),
{
    if !all_digits(text) {
        let dot = choose|dot: int|
            #![trigger text[dot]]
            0 <= dot < text.len() && text[dot] == '.' && text.len() > 1 && all_digits(
                text.take(dot),
            ) && all_digits(text.skip(dot + 1));
        if k < dot {
            assert(text.take(dot)[k] == text[k]);
        } else if k > dot {
            assert(text.skip(dot + 1)[k - dot - 1] == text[k]);
        }
    }
}

/// A number is made of digits, signs, points and the letter e alone.
pub proof fn lemma_number_chars(text: Seq<char>, k: int)
    requires
        is_number(text),
        0 <= k < text.len(),
    ensures
        text[k] == '-' || text[k] == '+' || text[k] == '.' || text[k] == 'e' || text[k] == 'E' || (
        '0' <= text[k] && text[k] <= '9'),
{
    let body = unsigned(text);
    if body.len() < text.len() && k == 0 {
    } else {
        let at = k - (text.len() - body.len());
        assert(body[at] == text[k]);
        if is_fraction(body) {
            lemma_fraction_chars(body, at);
        } else {
            let e = choose|e: int|
                #![trigger body[e]]
                0 <= e < body.len() && (body[e] == 'e' || body[e] == 'E') && is_fraction(
                    body.take(e),
                ) && is_exponent(body.skip(e + 1));
            if at < e {
                lemma_fraction_chars(body.take(e), at);
            } else if at > e {
                let tail = body.skip(e + 1);
                let j = at - e - 1;
                assert(tail[j] == body[at]);
                let digits = unsigned(tail);
                if digits.len() == tail.len() {
                    assert(digits[j] == tail[j]);
                } else if j > 0 {
                    assert(digits[j - 1] == tail[j]);
                }
            }
        }
    }
}

proof fn lemma_past_number(s: Seq<char>, at: int, end: int)
    requires
        0 <= at <= end <= s.len(),
        forall|k: int| at <= k < end ==> is_number_char(#[trigger] s[k]),
        end < s.len() ==> !is_number_char(s[end]),
    ensures
        past_number(s, at) == end,
    decreases end - at,
{
    if at < end {
        assert(is_number_char(s[at]));
        lemma_past_number(s, at + 1, end);
    }
}

// ---------------------------------------------------------------- documents
/// Blanks are space, tab, line feed, form feed and carriage return.
pub proof fn lemma_blank(c: char)
    ensures
        is_blank(c) <==> c == '\u{20}' || c == '\u{9}' || c == '\u{A}' || c == '\u{C}' || c
            == '\u{D}',
{
}

/// What follows a value without being part of it.
pub open spec fn ends_value(t: Seq<char>) -> bool {
    t.len() == 0 || t[0] == ',' || t[0] == ']' || t[0] == '}' || is_blank(t[0])
}

/// White space in `s` from `at` on: `gap`, and then something else.
pub open spec fn gap_at(s: Seq<char>, at: int, gap: Seq<char>, c: char) -> bool {
    &&& all_blank(gap)
    &&& !is_blank(c)
    &&& 0 <= at
    &&& at + gap.len() < s.len()
    &&& s.subrange(at, at + gap.len()) == gap
    &&& s[at + gap.len()] == c
}

proof fn lemma_gap(s: Seq<char>, at: int, gap: Seq<char>, c: char)
    requires
        gap_at(s, at, gap, c),
    ensures
        past_blanks(s, at) == at + gap.len(),
{
    assert forall|k: int| at <= k < at + gap.len() implies is_blank(#[trigger] s[k]) by {
        assert(s[k] == gap[k - at]);
        assert(is_blank(gap[k - at]));
    }
    lemma_blanks_are(s, at, at + gap.len());
}

proof fn lemma_gap_in(head: Seq<char>, gap: Seq<char>, tail: Seq<char>)
    requires
        all_blank(gap),
        tail.len() > 0,
        !is_blank(tail[0]),
    ensures
        past_blanks(head + gap + tail, head.len() as int) == head.len() + gap.len(),
        (head + gap + tail)[head.len() as int + gap.len()] == tail[0],
{
    let s = head + gap + tail;
    assert(s.subrange(head.len() as int, head.len() as int + gap.len()) =~= gap);
    lemma_gap(s, head.len() as int, gap, tail[0]);
}

proof fn lemma_tail_ends(gap: Seq<char>, t: Seq<char>)
    requires
        all_blank(gap),
        ends_value(t),
    ensures
        ends_value(gap + t),
{
    if gap.len() > 0 {
        assert((gap + t)[0] == gap[0]);
    } else {
        assert(gap + t =~= t);
    }
}

#[verifier::rlimit(60)]
#[verifier::spinoff_prover]
proof fn lemma_value_reads(v: JsonView, gap: Seq<char>, t: Seq<char>)
    requires
        numbers_hold(v),
        all_blank(gap),
        ends_value(t),
    ensures
        value(written(v, gap) + t, 0) == Some((v, written(v, gap).len() as int)),
        written(v, gap).len() > 0,
        !is_blank(written(v, gap)[0]),
        written(v, gap)[0] != ']',
    decreases v, 0int,
{
    let s = written(v, gap) + t;
    match v {
        JsonView::Null => {
            reveal_strlit("null");
            assert(s.subrange(0, 4) =~= "null"@);
            assert(s[0] == 'n');
            assert(past_blanks(s, 0) == 0);
        },
        JsonView::Bool(b) => {
            reveal_strlit("true");
            reveal_strlit("false");
            if b {
                assert(s.subrange(0, 4) =~= "true"@);
                assert(s[0] == 't');
            } else {
                assert(s.subrange(0, 5) =~= "false"@);
                assert(s[0] == 'f');
            }
            assert(past_blanks(s, 0) == 0);
        },
        JsonView::Num(text) => {
            lemma_number_reads(text, t);
        },
        JsonView::Str(text) => {
            lemma_quoted_reads(text, t);
            assert(s[0] == '"');
            assert(past_blanks(s, 0) == 0);
        },
        JsonView::Arr(items) => {
            if items.len() == 0 {
                lemma_empty_reads(gap, t);
                assert(items =~= Seq::<JsonView>::empty());
            } else {
                lemma_items_read(items, gap, t);
                lemma_array_reads(items, items_written(items, gap), gap, t);
            }
        },
        JsonView::Obj(fields) => {
            if fields.len() == 0 {
                lemma_empty_reads(gap, t);
                assert(fields =~= Seq::<(Seq<char>, JsonView)>::empty());
            } else {
                lemma_fields_read(fields, gap, t);
                lemma_object_reads(fields, fields_written(fields, gap), gap, t);
            }
        },
    }
}

proof fn lemma_empty_reads(gap: Seq<char>, t: Seq<char>)
    requires
        all_blank(gap),
    ensures
        value(seq!['['] + gap + seq![']'] + t, 0) == Some(
            (JsonView::Arr(Seq::empty()), gap.len() as int + 2),
        ),
        value(seq!['{'] + gap + seq!['}'] + t, 0) == Some(
            (JsonView::Obj(Seq::empty()), gap.len() as int + 2),
        ),
{
    let a = seq!['['] + gap + seq![']'] + t;
    assert(a =~= seq!['['] + gap + (seq![']'] + t));
    lemma_gap_in(seq!['['], gap, seq![']'] + t);
    assert(a[0] == '[');
    assert(past_blanks(a, 0) == 0);
    let b = seq!['{'] + gap + seq!['}'] + t;
    assert(b =~= seq!['{'] + gap + (seq!['}'] + t));
    lemma_gap_in(seq!['{'], gap, seq!['}'] + t);
    assert(b[0] == '{');
    assert(past_blanks(b, 0) == 0);
}

proof fn lemma_array_reads(items: Seq<JsonView>, inner: Seq<char>, gap: Seq<char>, t: Seq<char>)
    requires
        all_blank(gap),
        inner.len() > 0,
        !is_blank(inner[0]) && inner[0] != ']',
        elements(inner + seq![']'] + t, 0) == Some((items, inner.len() as int + 1)),
    ensures
        value(seq!['['] + gap + inner + seq![']'] + t, 0) == Some(
            (JsonView::Arr(items), gap.len() as int + inner.len() + 2),
        ),
{
    let open = seq!['['];
    let tail = inner + seq![']'] + t;
    let s = seq!['['] + gap + inner + seq![']'] + t;
    assert(tail[0] == inner[0]);
    assert(s =~= open + gap + tail);
    assert(s =~= open + (gap + tail));
    lemma_gap_in(open, gap, tail);
    lemma_elements_behind(gap, tail);
    lemma_elements_moved(open, gap + tail, 0);
    assert(s[0] == '[');
    assert(past_blanks(s, 0) == 0);
}

proof fn lemma_object_reads(
    fields: Seq<(Seq<char>, JsonView)>,
    inner: Seq<char>,
    gap: Seq<char>,
    t: Seq<char>,
)
    requires
        all_blank(gap),
        inner.len() > 0,
        inner[0] == '"',
        members(inner + seq!['}'] + t, 0) == Some((fields, inner.len() as int + 1)),
    ensures
        value(seq!['{'] + gap + inner + seq!['}'] + t, 0) == Some(
            (JsonView::Obj(fields), gap.len() as int + inner.len() + 2),
        ),
{
    let open = seq!['{'];
    let tail = inner + seq!['}'] + t;
    let s = seq!['{'] + gap + inner + seq!['}'] + t;
    assert(tail[0] == inner[0]);
    assert(s =~= open + gap + tail);
    assert(s =~= open + (gap + tail));
    lemma_gap_in(open, gap, tail);
    lemma_members_behind(gap, tail);
    lemma_members_moved(open, gap + tail, 0);
    assert(s[0] == '{');
    assert(past_blanks(s, 0) == 0);
}

proof fn lemma_number_reads(text: Seq<char>, t: Seq<char>)
    requires
        is_number(text),
        ends_value(t),
    ensures
        value(text + t, 0) == Some((JsonView::Num(text), text.len() as int)),
        text.len() > 0,
        !is_blank(text[0]),
        text[0] != ']',
{
    let s = text + t;
    let none = Seq::<char>::empty();
    assert(unsigned(none) =~= none);
    assert(text.len() > 0) by {
        if text.len() == 0 {
            assert(text =~= none);
            assert(!is_fraction(none));
        }
    }
    assert forall|k: int| 0 <= k < text.len() implies is_number_char(#[trigger] s[k]) by {
        lemma_number_chars(text, k);
        assert(s[k] == text[k]);
    }
    if t.len() > 0 {
        assert(s[text.len() as int] == t[0]);
    }
    lemma_past_number(s, 0, text.len() as int);
    assert(is_number_char(s[0]));
    assert(s[0] == text[0]);
    assert(past_blanks(s, 0) == 0);
    assert(s.subrange(0, text.len() as int) =~= text);
}

proof fn lemma_value_behind(gap: Seq<char>, tail: Seq<char>)
    requires
        all_blank(gap),
        tail.len() > 0,
        !is_blank(tail[0]),
    ensures
        value(gap + tail, 0) == moved(value(tail, 0), gap.len() as int),
{
    let none = Seq::<char>::empty();
    lemma_value_moved(gap, tail, 0);
    lemma_gap_in(none, gap, tail);
    assert(none + gap + tail =~= gap + tail);
    assert(past_blanks(gap + tail, 0) == gap.len());
    assert(past_blanks(gap + tail, gap.len() as int) == gap.len());
}

proof fn lemma_elements_behind(gap: Seq<char>, tail: Seq<char>)
    requires
        all_blank(gap),
        tail.len() > 0,
        !is_blank(tail[0]),
    ensures
        elements(gap + tail, 0) == moved(elements(tail, 0), gap.len() as int),
{
    let s = gap + tail;
    let n = gap.len() as int;
    lemma_value_behind(gap, tail);
    lemma_value_moved(gap, tail, 0);
    lemma_elements_moved(gap, tail, 0);
    assert(value(s, 0) == value(s, n));
    lemma_value_end(s, n);
    if let Some((v, end)) = value(s, n) {
        lemma_blanks(s, end);
    }
}

proof fn lemma_members_behind(gap: Seq<char>, tail: Seq<char>)
    requires
        all_blank(gap),
        tail.len() > 0,
        !is_blank(tail[0]),
    ensures
        members(gap + tail, 0) == moved(members(tail, 0), gap.len() as int),
{
    let s = gap + tail;
    let n = gap.len() as int;
    let none = Seq::<char>::empty();
    lemma_members_moved(gap, tail, 0);
    lemma_gap_in(none, gap, tail);
    assert(none + gap + tail =~= s);
    assert(past_blanks(s, 0) == n);
    assert(past_blanks(s, n) == n);
    lemma_string_end(s, n);
    if let Some((key, end)) = string(s, n) {
        lemma_blanks(s, end);
        let colon = past_blanks(s, end);
        if stands(s, colon, ':') {
            lemma_value_end(s, colon + 1);
            if let Some((v, stop)) = value(s, colon + 1) {
                lemma_blanks(s, stop);
            }
        }
    }
}

proof fn lemma_item_step(
    s: Seq<char>,
    v: JsonView,
    n: int,
    next: int,
    rest: Seq<JsonView>,
    end: int,
)
    requires
        value(s, 0) == Some((v, n)),
        past_blanks(s, n) == next,
        0 < n <= next < s.len(),
    ensures
        s[next] == ']' ==> elements(s, 0) == Some((seq![v], next + 1)),
        s[next] == ',' && elements(s, next + 1) == Some((rest, end)) ==> elements(s, 0) == Some(
            (seq![v] + rest, end),
        ),
{
}

proof fn lemma_last_item(v: JsonView, first: Seq<char>, gap: Seq<char>, t: Seq<char>)
    requires
        all_blank(gap),
        first.len() > 0,
        value(first + (gap + (seq![']'] + t)), 0) == Some((v, first.len() as int)),
    ensures
        elements(first + gap + seq![']'] + t, 0) == Some(
            (seq![v], (first + gap).len() as int + 1),
        ),
{
    let tail = seq![']'] + t;
    let s = first + gap + seq![']'] + t;
    let n = first.len() as int;
    assert(s =~= first + (gap + tail));
    assert(s =~= first + gap + tail);
    lemma_gap_in(first, gap, tail);
    lemma_item_step(s, v, n, n + gap.len(), seq![v], 0);
}

#[verifier::spinoff_prover]
proof fn lemma_next_item(
    v: JsonView,
    first: Seq<char>,
    gap: Seq<char>,
    inner: Seq<char>,
    rest: Seq<JsonView>,
    t: Seq<char>,
)
    requires
        all_blank(gap),
        first.len() > 0,
        inner.len() > 0,
        !is_blank(inner[0]),
        value(first + (gap + (seq![','] + (gap + (inner + seq![']'] + t)))), 0) == Some(
            (v, first.len() as int),
        ),
        elements(inner + seq![']'] + t, 0) == Some((rest, inner.len() as int + 1)),
    ensures
        elements(first + gap + seq![','] + gap + inner + seq![']'] + t, 0) == Some(
            (seq![v] + rest, (first + gap + seq![','] + gap + inner).len() as int + 1),
        ),
{
    let more = inner + seq![']'] + t;
    let tail = seq![','] + (gap + more);
    let s = first + gap + seq![','] + gap + inner + seq![']'] + t;
    let n = first.len() as int;
    let head = first + gap + seq![','];
    assert(more[0] == inner[0]);
    lemma_elements_behind(gap, more);
    lemma_elements_moved(head, gap + more, 0);
    assert(s =~= first + (gap + tail));
    assert(s =~= first + gap + tail);
    assert(s =~= head + (gap + more));
    lemma_gap_in(first, gap, tail);
    lemma_item_step(s, v, n, n + gap.len(), rest, (first + gap + seq![','] + gap + inner).len()
        as int + 1);
}

#[verifier::spinoff_prover]
proof fn lemma_items_read(items: Seq<JsonView>, gap: Seq<char>, t: Seq<char>)
    requires
        items.len() > 0,
        items_hold(items),
        all_blank(gap),
    ensures
        elements(items_written(items, gap) + seq![']'] + t, 0) == Some(
            (items, items_written(items, gap).len() as int + 1),
        ),
        items_written(items, gap).len() > 0,
        !is_blank(items_written(items, gap)[0]),
        items_written(items, gap)[0] != ']',
    decreases items, 1int,
{
    let v = items[0];
    let first = written(v, gap);
    if items.len() == 1 {
        let tail = seq![']'] + t;
        lemma_tail_ends(gap, tail);
        lemma_value_reads(v, gap, gap + tail);
        lemma_last_item(v, first, gap, t);
        assert(items =~= seq![v]);
    } else {
        let rest = items.subrange(1, items.len() as int);
        let inner = items_written(rest, gap);
        let tail = seq![','] + (gap + (inner + seq![']'] + t));
        lemma_tail_ends(gap, tail);
        lemma_value_reads(v, gap, gap + tail);
        lemma_items_read(rest, gap, t);
        lemma_next_item(v, first, gap, inner, rest, t);
        assert(seq![v] + rest =~= items);
    }
}

proof fn lemma_field_step(
    s: Seq<char>,
    key: Seq<char>,
    n: int,
    colon: int,
    v: JsonView,
    m: int,
    next: int,
    rest: Seq<(Seq<char>, JsonView)>,
    end: int,
)
    requires
        s.len() > 0 && s[0] == '"',
        string(s, 0) == Some((key, n)),
        past_blanks(s, n) == colon,
        0 < n <= colon < s.len(),
        s[colon] == ':',
        value(s, colon + 1) == Some((v, m)),
        past_blanks(s, m) == next,
        colon + 1 < m <= next < s.len(),
    ensures
        s[next] == '}' ==> members(s, 0) == Some((seq![(key, v)], next + 1)),
        s[next] == ',' && members(s, next + 1) == Some((rest, end)) ==> members(s, 0) == Some(
            (seq![(key, v)] + rest, end),
        ),
{
    assert(past_blanks(s, 0) == 0);
}

proof fn lemma_field_texts(name: Seq<char>, gap: Seq<char>, w: Seq<char>, tail: Seq<char>)
    ensures
        ({
            let from = w + (gap + tail);
            let s = name + gap + (seq![':'] + (gap + from));
            &&& s == name + (gap + (seq![':'] + (gap + from)))
            &&& s == name + gap + seq![':'] + (gap + from)
            &&& s == name + gap + seq![':'] + gap + w + gap + tail
            &&& s.len() == name.len() + gap.len() + 1 + gap.len() + w.len() + gap.len()
                + tail.len()
        }),
{
    let from = w + (gap + tail);
    let s = name + gap + (seq![':'] + (gap + from));
    assert(s =~= name + (gap + (seq![':'] + (gap + from))));
    assert(s =~= name + gap + seq![':'] + (gap + from));
    assert(s =~= name + gap + seq![':'] + gap + w + gap + tail);
}

/// Whether `s` is a name, a colon and a value, with `tail` behind them.
pub open spec fn is_field_and(
    s: Seq<char>,
    key: Seq<char>,
    w: Seq<char>,
    gap: Seq<char>,
    tail: Seq<char>,
) -> bool {
    s == quoted(key) + gap + (seq![':'] + (gap + (w + (gap + tail))))
}

#[verifier::spinoff_prover]
proof fn lemma_field_reads(
    s: Seq<char>,
    key: Seq<char>,
    v: JsonView,
    w: Seq<char>,
    gap: Seq<char>,
    tail: Seq<char>,
    colon: int,
    m: int,
)
    requires
        all_blank(gap),
        value(w + (gap + tail), 0) == Some((v, w.len() as int)),
        w.len() > 0,
        !is_blank(w[0]),
        tail.len() > 0,
        !is_blank(tail[0]),
        is_field_and(s, key, w, gap, tail),
        colon == quoted(key).len() + gap.len(),
        m == colon + 1 + gap.len() + w.len(),
    ensures
        s.len() > 0 && s[0] == '"',
        string(s, 0) == Some((key, quoted(key).len() as int)),
        past_blanks(s, quoted(key).len() as int) == colon,
        0 < quoted(key).len() <= colon < s.len(),
        s[colon] == ':',
        value(s, colon + 1) == Some((v, m)),
        past_blanks(s, m) == m + gap.len(),
        colon + 1 < m && m + gap.len() < s.len(),
        s[m + gap.len()] == tail[0],
{
    let from = w + (gap + tail);
    let behind = seq![':'] + (gap + from);
    let name = quoted(key);
    lemma_field_texts(name, gap, w, tail);
    lemma_quoted_reads(key, gap + behind);
    assert(behind[0] == ':');
    lemma_gap_in(name, gap, behind);
    assert(from[0] == w[0]);
    lemma_value_behind(gap, from);
    let lead = name + gap + seq![':'];
    lemma_value_moved(lead, gap + from, 0);
    let all = lead + gap + w;
    lemma_gap_in(all, gap, tail);
    assert(name.len() > 0);
}

#[verifier::spinoff_prover]
proof fn lemma_last_field(
    key: Seq<char>,
    v: JsonView,
    w: Seq<char>,
    gap: Seq<char>,
    t: Seq<char>,
    text: Seq<char>,
)
    requires
        all_blank(gap),
        w.len() > 0,
        !is_blank(w[0]),
        value(w + (gap + (seq!['}'] + t)), 0) == Some((v, w.len() as int)),
        text == quoted(key) + gap + seq![':'] + gap + w + gap,
    ensures
        members(text + seq!['}'] + t, 0) == Some((seq![(key, v)], text.len() as int + 1)),
        text.len() > 0,
        text[0] == '"',
{
    let tail = seq!['}'] + t;
    let s = text + seq!['}'] + t;
    let n = quoted(key).len() as int;
    let g = gap.len() as int;
    let colon = n + g;
    let m = colon + 1 + g + w.len();
    assert(s =~= quoted(key) + gap + (seq![':'] + (gap + (w + (gap + tail)))));
    lemma_field_reads(s, key, v, w, gap, tail, colon, m);
    lemma_field_step(s, key, n, colon, v, m, m + g, seq![(key, v)], 0);
    assert(text[0] == s[0]);
}

proof fn lemma_next_texts(head: Seq<char>, gap: Seq<char>, inner: Seq<char>, t: Seq<char>)
    ensures
        ({
            let more = inner + seq!['}'] + t;
            let s = head + seq![','] + gap + inner + seq!['}'] + t;
            &&& s == head + (seq![','] + (gap + more))
            &&& s == head + seq![','] + (gap + more)
        }),
{
    let more = inner + seq!['}'] + t;
    let s = head + seq![','] + gap + inner + seq!['}'] + t;
    assert(s =~= head + (seq![','] + (gap + more)));
    assert(s =~= head + seq![','] + (gap + more));
}

#[verifier::spinoff_prover]
proof fn lemma_next_field(
    key: Seq<char>,
    v: JsonView,
    w: Seq<char>,
    gap: Seq<char>,
    inner: Seq<char>,
    rest: Seq<(Seq<char>, JsonView)>,
    t: Seq<char>,
    text: Seq<char>,
)
    requires
        all_blank(gap),
        w.len() > 0,
        !is_blank(w[0]),
        inner.len() > 0,
        inner[0] == '"',
        value(w + (gap + (seq![','] + (gap + (inner + seq!['}'] + t)))), 0) == Some(
            (v, w.len() as int),
        ),
        members(inner + seq!['}'] + t, 0) == Some((rest, inner.len() as int + 1)),
        text == quoted(key) + gap + seq![':'] + gap + w + gap + seq![','] + gap + inner,
    ensures
        members(text + seq!['}'] + t, 0) == Some(
            (seq![(key, v)] + rest, text.len() as int + 1),
        ),
        text.len() > 0,
        text[0] == '"',
{
    let more = inner + seq!['}'] + t;
    let tail = seq![','] + (gap + more);
    let s = text + seq!['}'] + t;
    let n = quoted(key).len() as int;
    let g = gap.len() as int;
    let colon = n + g;
    let m = colon + 1 + g + w.len();
    assert(more[0] == inner[0]);
    lemma_members_behind(gap, more);
    let head = quoted(key) + gap + seq![':'] + gap + w + gap + seq![','];
    lemma_members_moved(head, gap + more, 0);
    lemma_field_texts(quoted(key), gap, w, tail);
    lemma_next_texts(quoted(key) + gap + seq![':'] + gap + w + gap, gap, inner, t);
    lemma_field_reads(s, key, v, w, gap, tail, colon, m);
    lemma_field_step(s, key, n, colon, v, m, m + g, rest, text.len() as int + 1);
    assert(text[0] == s[0]);
}

#[verifier::spinoff_prover]
proof fn lemma_fields_read(fields: Seq<(Seq<char>, JsonView)>, gap: Seq<char>, t: Seq<char>)
    requires
        fields.len() > 0,
        fields_hold(fields),
        all_blank(gap),
    ensures
        members(fields_written(fields, gap) + seq!['}'] + t, 0) == Some(
            (fields, fields_written(fields, gap).len() as int + 1),
        ),
        fields_written(fields, gap).len() > 0,
        fields_written(fields, gap)[0] == '"',
    decreases fields, 1int,
{
    let key = fields[0].0;
    let v = fields[0].1;
    let w = written(v, gap);
    let text = fields_written(fields, gap);
    assert(fields[0] == (key, v));
    if fields.len() == 1 {
        let tail = seq!['}'] + t;
        lemma_tail_ends(gap, tail);
        lemma_value_reads(v, gap, gap + tail);
        lemma_last_field(key, v, w, gap, t, text);
        assert(fields =~= seq![(key, v)]);
    } else {
        let rest = fields.subrange(1, fields.len() as int);
        let inner = fields_written(rest, gap);
        let tail = seq![','] + (gap + (inner + seq!['}'] + t));
        lemma_tail_ends(gap, tail);
        lemma_value_reads(v, gap, gap + tail);
        lemma_fields_read(rest, gap, t);
        lemma_next_field(key, v, w, gap, inner, rest, t, text);
        assert(seq![(key, v)] + rest =~= fields);
    }
}

/// Every document reads back as what was written, with any white space between its tokens:
/// arrays and objects with all their parts in order, strings with every character, numbers
/// as their text.
pub proof fn lemma_written_reads_back(v: JsonView, gap: Seq<char>)
    requires
        numbers_hold(v),
        all_blank(gap),
    ensures
        document(written(v, gap)) == Some(v),
{
    let none = Seq::<char>::empty();
    lemma_value_reads(v, gap, none);
    let s = written(v, gap);
    assert(s + none =~= s);
    assert(past_blanks(s, s.len() as int) == s.len());
}

/// A list needs a value behind every comma, and an object a colon behind every name.
pub proof fn lemma_unfinished(v: JsonView, gap: Seq<char>, key: Seq<char>)
    requires
        numbers_hold(v),
        all_blank(gap),
    ensures
        document(seq!['['] + written(v, gap) + seq![',']) is None,
        document(seq!['['] + written(v, gap)) is None,
        document(seq!['{'] + quoted(key) + seq!['}']) is None,
        document(Seq::<char>::empty()) is None,
{
    let open = seq!['['];
    let none = Seq::<char>::empty();
    let comma = seq![','];
    lemma_value_reads(v, gap, comma);
    lemma_value_reads(v, gap, none);
    let b = written(v, gap);
    assert(b + none =~= b);
    let n = b.len() as int;
    let a = b + comma;
    assert(a[n] == ',');
    assert(a[0] == b[0]);
    assert(past_blanks(a, n) == n);
    assert(past_blanks(a, n + 1) == n + 1);
    assert(value(a, n + 1) is None);
    assert(elements(a, n + 1) is None);
    assert(elements(a, 0) is None);
    lemma_elements_moved(open, a, 0);
    let s = open + a;
    assert(s =~= seq!['['] + b + seq![',']);
    assert(s[0] == '[' && s[1] == a[0]);
    assert(past_blanks(s, 0) == 0 && past_blanks(s, 1) == 1);
    assert(value(s, 0) is None);
    assert(past_blanks(b, n) == n);
    assert(elements(b, 0) is None);
    lemma_elements_moved(open, b, 0);
    let r = open + b;
    assert(r[0] == '[' && r[1] == b[0]);
    assert(past_blanks(r, 0) == 0 && past_blanks(r, 1) == 1);
    assert(value(r, 0) is None);
    let brace = seq!['{'];
    let close = seq!['}'];
    let c = quoted(key) + close;
    let m = quoted(key).len() as int;
    lemma_quoted_reads(key, close);
    assert(c[0] == '"' && c[m] == '}');
    assert(past_blanks(c, 0) == 0 && past_blanks(c, m) == m);
    assert(members(c, 0) is None);
    lemma_members_moved(brace, c, 0);
    let o = brace + c;
    assert(o =~= seq!['{'] + quoted(key) + seq!['}']);
    assert(o[0] == '{' && o[1] == c[0]);
    assert(past_blanks(o, 0) == 0 && past_blanks(o, 1) == 1);
    assert(value(o, 0) is None);
}

} // verus!
