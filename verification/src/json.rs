//! Just enough JSON to read what `cargo metadata` prints.

use crate::text::{all_digits, chars_of, found_at, is_digit, occurs_at, same, text_of, views};
use vstd::prelude::*;
use vstd::slice::slice_subrange;

verus! {

/// A JSON document. A number is kept as it was written: nothing here computes with
/// one, and its text loses nothing.
#[derive(Debug, PartialEq)]
pub enum Json {
    Null,
    Bool(bool),
    Num(String),
    Str(String),
    Arr(Vec<Json>),
    Obj(Vec<(String, Json)>),
}

/// What a [`Json`] holds.
#[verifier::ext_equal]
pub enum JsonView {
    Null,
    Bool(bool),
    Num(Seq<char>),
    Str(Seq<char>),
    Arr(Seq<JsonView>),
    Obj(Seq<(Seq<char>, JsonView)>),
}

impl View for Json {
    type V = JsonView;

    open spec fn view(&self) -> JsonView {
        model(*self)
    }
}

/// What `json` holds.
pub open spec fn model(json: Json) -> JsonView
    decreases json,
{
    match json {
        Json::Null => JsonView::Null,
        Json::Bool(b) => JsonView::Bool(b),
        Json::Num(t) => JsonView::Num(t@),
        Json::Str(t) => JsonView::Str(t@),
        Json::Arr(items) => JsonView::Arr(item_models(items@)),
        Json::Obj(fields) => JsonView::Obj(field_models(fields@)),
    }
}

/// What `items` hold, in order.
pub open spec fn item_models(items: Seq<Json>) -> Seq<JsonView>
    decreases items,
{
    if items.len() == 0 {
        Seq::empty()
    } else {
        item_models(items.drop_last()).push(model(items.last()))
    }
}

/// The names of `fields` and what the fields hold, in order.
pub open spec fn field_models(fields: Seq<(String, Json)>) -> Seq<(Seq<char>, JsonView)>
    decreases fields,
{
    if fields.len() == 0 {
        Seq::empty()
    } else {
        field_models(fields.drop_last()).push((fields.last().0@, model(fields.last().1)))
    }
}

impl JsonView {
    /// The value of the first field named `key`, in an object.
    pub open spec fn get(self, key: Seq<char>) -> Option<JsonView> {
        match self {
            JsonView::Obj(fields) => first_field(fields, key),
            _ => None,
        }
    }

    /// The characters of a string.
    pub open spec fn str(self) -> Option<Seq<char>> {
        match self {
            JsonView::Str(text) => Some(text),
            _ => None,
        }
    }

    /// The elements of an array; none for anything else.
    pub open spec fn arr(self) -> Seq<JsonView> {
        match self {
            JsonView::Arr(items) => items,
            _ => Seq::empty(),
        }
    }
}

/// The value of the first field named `key`.
pub open spec fn first_field(fields: Seq<(Seq<char>, JsonView)>, key: Seq<char>) -> Option<JsonView>
    decreases fields.len(),
{
    if fields.len() == 0 {
        None
    } else if fields[0].0 == key {
        Some(fields[0].1)
    } else {
        first_field(fields.skip(1), key)
    }
}

impl Json {
    /// The value of the first field named `key`; none if this is not an object.
    pub fn get(&self, key: &str) -> (value: Option<&Json>)
        ensures
            value matches Some(v) ==> self@.get(key@) == Some(v@),
            value is None ==> self@.get(key@) is None,
    {
        match self {
            Json::Obj(fields) => {
                proof {
                    lemma_obj_view(*fields);
                }
                let ghost all = views(fields@);
                let mut i: usize = 0;
                assert(all.skip(0) == all);
                while i < fields.len()
                    invariant
                        i <= fields@.len(),
                        all == views(fields@),
                        self@ == JsonView::Obj(all),
                        first_field(all, key@) == first_field(all.skip(i as int), key@),
                    decreases fields@.len() - i,
                {
                    assert(all[i as int] == (fields@[i as int].0@, fields@[i as int].1@));
                    if same(fields[i].0.as_str(), key) {
                        return Some(&fields[i].1);
                    }
                    assert(all.skip(i as int).skip(1) == all.skip(i + 1));
                    i += 1;
                }
                None
            },
            _ => None,
        }
    }

    /// The text of a string; none if this is not one.
    pub fn str(&self) -> (text: Option<&str>)
        ensures
            text matches Some(t) ==> self@.str() == Some(t@),
            text is None ==> self@.str() is None,
    {
        match self {
            Json::Str(s) => Some(s.as_str()),
            _ => None,
        }
    }

    /// The elements of an array; empty for anything else, including null.
    pub fn arr(&self) -> (items: &[Json])
        ensures
            views(items@) == self@.arr(),
    {
        match self {
            Json::Arr(items) => {
                proof {
                    lemma_arr_view(*items);
                }
                items.as_slice()
            },
            _ => {
                let none: &[Json] = &[];
                assert(views(none@) == Seq::<JsonView>::empty());
                none
            },
        }
    }
}

proof fn lemma_item_models(items: Seq<Json>)
    ensures
        item_models(items) == views(items),
    decreases items.len(),
{
    if items.len() > 0 {
        lemma_item_models(items.drop_last());
    }
    assert(item_models(items) =~= views(items));
}

proof fn lemma_field_models(fields: Seq<(String, Json)>)
    ensures
        field_models(fields) == views(fields),
    decreases fields.len(),
{
    if fields.len() > 0 {
        lemma_field_models(fields.drop_last());
        assert(fields.last()@ == (fields.last().0@, fields.last().1@));
    }
    assert(field_models(fields) =~= views(fields));
}

proof fn lemma_arr_view(items: Vec<Json>)
    ensures
        Json::Arr(items)@ == JsonView::Arr(views(items@)),
{
    lemma_item_models(items@);
}

proof fn lemma_obj_view(fields: Vec<(String, Json)>)
    ensures
        Json::Obj(fields)@ == JsonView::Obj(views(fields@)),
{
    lemma_field_models(fields@);
}

// ---------------------------------------------------------------- the grammar
/// The white space that may stand between tokens.
pub open spec fn is_blank(c: char) -> bool {
    c == ' ' || c == '\t' || c == '\n' || c == '\x0C' || c == '\r'
}

/// The first position from `at` on that holds no white space.
pub open spec fn past_blanks(s: Seq<char>, at: int) -> int
    decreases s.len() - at,
{
    if 0 <= at < s.len() && is_blank(s[at]) {
        past_blanks(s, at + 1)
    } else {
        at
    }
}

/// Whether the character `c` stands at position `at`.
pub open spec fn stands(s: Seq<char>, at: int, c: char) -> bool {
    0 <= at < s.len() && s[at] == c
}

pub open spec fn hex_digit(c: char) -> Option<nat> {
    if '0' <= c <= '9' {
        Some((c as u32 - 48) as nat)
    } else if 'a' <= c <= 'f' {
        Some((c as u32 - 87) as nat)
    } else if 'A' <= c <= 'F' {
        Some((c as u32 - 55) as nat)
    } else {
        None
    }
}

/// The value of a run of hexadecimal digits, which may be empty.
pub open spec fn hex_value(digits: Seq<char>) -> Option<nat>
    decreases digits.len(),
{
    if digits.len() == 0 {
        Some(0)
    } else {
        match (hex_value(digits.drop_last()), hex_digit(digits.last())) {
            (Some(high), Some(low)) => Some(high * 16 + low),
            _ => None,
        }
    }
}

/// The four characters at `at` as a hexadecimal number. The first of them may be
/// a plus sign.
pub open spec fn hex4(s: Seq<char>, at: int) -> Option<nat> {
    if 0 <= at && at + 4 <= s.len() {
        if s[at] == '+' {
            hex_value(s.subrange(at + 1, at + 4))
        } else {
            hex_value(s.subrange(at, at + 4))
        }
    } else {
        None
    }
}

/// The character with the code `code`; the replacement character where there is none.
pub open spec fn char_at_code(code: nat) -> char {
    if code <= 0xD7FF || 0xE000 <= code <= 0x10FFFF {
        (code as u32) as char
    } else {
        '\u{FFFD}'
    }
}

/// The character that an escape sequence stands for, and the position after it. The
/// backslash is the character before `at`.
pub open spec fn escape(s: Seq<char>, at: int) -> Option<(char, int)> {
    if !(0 <= at < s.len()) {
        None
    } else if s[at] == '"' || s[at] == '\\' || s[at] == '/' {
        Some((s[at], at + 1))
    } else if s[at] == 'b' {
        Some(('\x08', at + 1))
    } else if s[at] == 'f' {
        Some(('\x0C', at + 1))
    } else if s[at] == 'n' {
        Some(('\n', at + 1))
    } else if s[at] == 'r' {
        Some(('\r', at + 1))
    } else if s[at] == 't' {
        Some(('\t', at + 1))
    } else if s[at] == 'u' {
        match hex4(s, at + 1) {
            Some(high) => if 0xD800 <= high < 0xDC00 && occurs_at(s, seq!['\\', 'u'], at + 5) {
                match hex4(s, at + 7) {
                    Some(low) => if low >= 0xDC00 {
                        let code = (0x10000 + (high - 0xD800) * 0x400 + (low - 0xDC00)) as nat;
                        Some((char_at_code(code), at + 11))
                    } else {
                        None
                    },
                    None => None,
                }
            } else {
                Some((char_at_code(high), at + 5))
            },
            None => None,
        }
    } else {
        None
    }
}

/// The characters of a string up to its closing quote, and the position after it.
pub open spec fn string_body(s: Seq<char>, at: int) -> Option<(Seq<char>, int)>
    decreases s.len() - at,
{
    if !(0 <= at < s.len()) {
        None
    } else if s[at] == '"' {
        Some((Seq::empty(), at + 1))
    } else {
        let first = if s[at] == '\\' {
            escape(s, at + 1)
        } else {
            Some((s[at], at + 1))
        };
        match first {
            Some((c, next)) => if next > at {
                match string_body(s, next) {
                    Some((rest, end)) => Some((seq![c] + rest, end)),
                    None => None,
                }
            } else {
                None
            },
            None => None,
        }
    }
}

/// A string with both its quotes.
pub open spec fn string(s: Seq<char>, at: int) -> Option<(Seq<char>, int)> {
    if stands(s, at, '"') {
        string_body(s, at + 1)
    } else {
        None
    }
}

/// The characters that numbers are made of.
pub open spec fn is_number_char(c: char) -> bool {
    c == '-' || c == '+' || c == '.' || c == 'e' || c == 'E' || is_digit(c)
}

/// The first position from `at` on that holds no character of a number.
pub open spec fn past_number(s: Seq<char>, at: int) -> int
    decreases s.len() - at,
{
    if 0 <= at < s.len() && is_number_char(s[at]) {
        past_number(s, at + 1)
    } else {
        at
    }
}

/// `text` without the sign it begins with.
pub open spec fn unsigned(text: Seq<char>) -> Seq<char> {
    if text.len() > 0 && (text[0] == '+' || text[0] == '-') {
        text.skip(1)
    } else {
        text
    }
}

/// Whether `text` is digits around at most one point, and at least one digit.
pub open spec fn is_fraction(text: Seq<char>) -> bool {
    ||| text.len() > 0 && all_digits(text)
    ||| exists|dot: int|
        #![trigger text[dot]]
        0 <= dot < text.len() && text[dot] == '.' && text.len() > 1 && all_digits(text.take(dot))
            && all_digits(text.skip(dot + 1))
}

/// Whether `text` is an exponent: a sign or none, and at least one digit.
pub open spec fn is_exponent(text: Seq<char>) -> bool {
    unsigned(text).len() > 0 && all_digits(unsigned(text))
}

/// Whether `text` is a decimal number: a sign or none, digits with or without a
/// point, an exponent or none.
pub open spec fn is_number(text: Seq<char>) -> bool {
    let body = unsigned(text);
    ||| is_fraction(body)
    ||| exists|e: int|
        #![trigger body[e]]
        0 <= e < body.len() && (body[e] == 'e' || body[e] == 'E') && is_fraction(body.take(e))
            && is_exponent(body.skip(e + 1))
}

/// The value that starts at `at`, after white space, and the position after it.
pub open spec fn value(s: Seq<char>, at: int) -> Option<(JsonView, int)>
    decreases s.len() - at, 1int,
{
    let i = past_blanks(s, at);
    if !(0 <= at <= i < s.len()) {
        None
    } else if s[i] == '{' {
        if stands(s, past_blanks(s, i + 1), '}') {
            Some((JsonView::Obj(Seq::empty()), past_blanks(s, i + 1) + 1))
        } else {
            match members(s, i + 1) {
                Some((fields, end)) => Some((JsonView::Obj(fields), end)),
                None => None,
            }
        }
    } else if s[i] == '[' {
        if stands(s, past_blanks(s, i + 1), ']') {
            Some((JsonView::Arr(Seq::empty()), past_blanks(s, i + 1) + 1))
        } else {
            match elements(s, i + 1) {
                Some((items, end)) => Some((JsonView::Arr(items), end)),
                None => None,
            }
        }
    } else if s[i] == '"' {
        match string(s, i) {
            Some((text, end)) => Some((JsonView::Str(text), end)),
            None => None,
        }
    } else if s[i] == 't' {
        if occurs_at(s, "true"@, i) {
            Some((JsonView::Bool(true), i + 4))
        } else {
            None
        }
    } else if s[i] == 'f' {
        if occurs_at(s, "false"@, i) {
            Some((JsonView::Bool(false), i + 5))
        } else {
            None
        }
    } else if s[i] == 'n' {
        if occurs_at(s, "null"@, i) {
            Some((JsonView::Null, i + 4))
        } else {
            None
        }
    } else {
        let end = past_number(s, i);
        if is_number(s.subrange(i, end)) {
            Some((JsonView::Num(s.subrange(i, end)), end))
        } else {
            None
        }
    }
}

/// The fields of an object from `at` up to its closing brace, at least one.
pub open spec fn members(s: Seq<char>, at: int) -> Option<(Seq<(Seq<char>, JsonView)>, int)>
    decreases s.len() - at, 2int,
{
    match string(s, past_blanks(s, at)) {
        Some((key, end)) => {
            let colon = past_blanks(s, end);
            if 0 <= at < colon && stands(s, colon, ':') {
                match value(s, colon + 1) {
                    Some((v, end)) => {
                        let next = past_blanks(s, end);
                        if stands(s, next, '}') {
                            Some((seq![(key, v)], next + 1))
                        } else if stands(s, next, ',') && next > at {
                            match members(s, next + 1) {
                                Some((rest, end)) => Some((seq![(key, v)] + rest, end)),
                                None => None,
                            }
                        } else {
                            None
                        }
                    },
                    None => None,
                }
            } else {
                None
            }
        },
        None => None,
    }
}

/// The elements of an array from `at` up to its closing bracket, at least one.
pub open spec fn elements(s: Seq<char>, at: int) -> Option<(Seq<JsonView>, int)>
    decreases s.len() - at, 2int,
{
    match value(s, at) {
        Some((v, end)) => {
            let next = past_blanks(s, end);
            if stands(s, next, ']') {
                Some((seq![v], next + 1))
            } else if stands(s, next, ',') && next > at {
                match elements(s, next + 1) {
                    Some((rest, end)) => Some((seq![v] + rest, end)),
                    None => None,
                }
            } else {
                None
            }
        },
        None => None,
    }
}

/// The document that `s` spells: one value, with nothing but white space after it.
pub open spec fn document(s: Seq<char>) -> Option<JsonView> {
    match value(s, 0) {
        Some((v, end)) => if past_blanks(s, end) == s.len() {
            Some(v)
        } else {
            None
        },
        None => None,
    }
}

// ---------------------------------------------------------------- the parser
/// `char::from_u32` gives the character with the code `code`; none where `code` is
/// above 0x10FFFF or a surrogate, which no character has.
pub assume_specification[ char::from_u32 ](code: u32) -> (c: Option<char>)
    ensures
        c is Some <==> code <= 0xD7FF || 0xE000 <= code <= 0x10FFFF,
        c matches Some(c) ==> c as u32 == code,
;

/// The document that `text` spells; none if it spells no document.
pub fn parse(text: &str) -> (doc: Option<Json>)
    ensures
        doc matches Some(v) ==> document(text@) == Some(v@),
        doc is None ==> document(text@) is None,
{
    let chars = chars_of(text);
    let mut p = Parser { s: chars.as_slice(), at: 0 };
    match p.value() {
        Some(value) => {
            p.ws();
            if p.at == p.s.len() {
                Some(value)
            } else {
                None
            }
        },
        None => None,
    }
}

struct Parser<'a> {
    s: &'a [char],
    at: usize,
}

impl<'a> Parser<'a> {
    spec fn wf(&self) -> bool {
        self.at <= self.s@.len() <= usize::MAX
    }

    /// Moves past white space.
    fn ws(&mut self)
        requires
            old(self).wf(),
        ensures
            final(self).wf(),
            final(self).s == old(self).s,
            final(self).at == past_blanks(old(self).s@, old(self).at as int),
            final(self).at == past_blanks(old(self).s@, final(self).at as int),
            final(self).at >= old(self).at,
    {
        while self.at < self.s.len() && is_space_char(self.s[self.at])
            invariant
                self.wf(),
                self.s == old(self).s,
                self.at >= old(self).at,
                past_blanks(self.s@, self.at as int) == past_blanks(
                    old(self).s@,
                    old(self).at as int,
                ),
            decreases self.s@.len() - self.at,
        {
            self.at += 1;
        }
    }

    /// Moves past the character `c` if it comes next.
    fn eat(&mut self, c: char) -> (hit: bool)
        requires
            old(self).wf(),
        ensures
            final(self).wf(),
            final(self).s == old(self).s,
            hit == stands(old(self).s@, old(self).at as int, c),
            final(self).at == if hit {
                old(self).at + 1
            } else {
                old(self).at as int
            },
    {
        if self.at < self.s.len() && self.s[self.at] == c {
            self.at += 1;
            true
        } else {
            false
        }
    }

    /// Moves past `word` if it comes next.
    fn eat_word(&mut self, word: &str) -> (hit: bool)
        requires
            old(self).wf(),
        ensures
            final(self).wf(),
            final(self).s == old(self).s,
            hit == occurs_at(old(self).s@, word@, old(self).at as int),
            final(self).at == if hit {
                old(self).at + word@.len()
            } else {
                old(self).at as int
            },
    {
        let part = chars_of(word);
        if found_at(self.s, part.as_slice(), self.at) {
            self.at += part.len();
            true
        } else {
            false
        }
    }

    fn value(&mut self) -> (found: Option<Json>)
        requires
            old(self).wf(),
        ensures
            final(self).wf(),
            final(self).s == old(self).s,
            found matches Some(v) ==> {
                &&& value(old(self).s@, old(self).at as int) == Some((v@, final(self).at as int))
                &&& final(self).at > old(self).at
            },
            found is None ==> value(old(self).s@, old(self).at as int) is None,
        decreases old(self).s@.len() - old(self).at, 1int,
    {
        self.ws();
        if self.at >= self.s.len() {
            return None;
        }
        let c: char = self.s[self.at];
        if c == '{' {
            self.object()
        } else if c == '[' {
            self.array()
        } else if c == '"' {
            match self.string() {
                Some(text) => Some(Json::Str(text)),
                None => None,
            }
        } else if c == 't' {
            proof {
                reveal_strlit("true");
            }
            if self.eat_word("true") {
                Some(Json::Bool(true))
            } else {
                None
            }
        } else if c == 'f' {
            proof {
                reveal_strlit("false");
            }
            if self.eat_word("false") {
                Some(Json::Bool(false))
            } else {
                None
            }
        } else if c == 'n' {
            proof {
                reveal_strlit("null");
            }
            if self.eat_word("null") {
                Some(Json::Null)
            } else {
                None
            }
        } else {
            self.number()
        }
    }

    /// An object; its opening brace comes next.
    fn object(&mut self) -> (found: Option<Json>)
        requires
            old(self).wf(),
            stands(old(self).s@, old(self).at as int, '{'),
        ensures
            final(self).wf(),
            final(self).s == old(self).s,
            found matches Some(v) ==> {
                &&& value(old(self).s@, old(self).at as int) == Some((v@, final(self).at as int))
                &&& final(self).at > old(self).at
            },
            found is None ==> value(old(self).s@, old(self).at as int) is None,
        decreases old(self).s@.len() - old(self).at, 0int,
    {
        let ghost s = self.s@;
        let ghost first = self.at + 1;
        self.at += 1;
        let mut fields: Vec<(String, Json)> = Vec::new();
        self.ws();
        if self.eat('}') {
            proof {
                lemma_obj_view(fields);
                assert(views(fields@) == Seq::<(Seq<char>, JsonView)>::empty());
            }
            return Some(Json::Obj(fields));
        }
        let ghost mut pos = first;
        assert(views(fields@) == Seq::<(Seq<char>, JsonView)>::empty());
        proof {
            if let Some((rest, end)) = members(s, first) {
                assert(views(fields@) + rest == rest);
            }
        }
        loop
            invariant
                self.wf(),
                self.s == old(self).s,
                s == self.s@,
                stands(s, old(self).at as int, '{'),
                first == old(self).at + 1,
                !stands(s, past_blanks(s, first), '}'),
                first <= pos <= self.at,
                past_blanks(s, pos) == past_blanks(s, self.at as int),
                members(s, first) == match members(s, pos) {
                    Some((rest, end)) => Some((views(fields@) + rest, end)),
                    None => None,
                },
            decreases s.len() - self.at,
        {
            self.ws();
            let key = match self.string() {
                Some(key) => key,
                None => {
                    return None;
                },
            };
            self.ws();
            if !self.eat(':') {
                return None;
            }
            let v = match self.value() {
                Some(v) => v,
                None => {
                    return None;
                },
            };
            let ghost before = fields@;
            let ghost field = (key@, v@);
            fields.push((key, v));
            assert(views(fields@) == views(before) + seq![field]);
            self.ws();
            if self.eat('}') {
                proof {
                    lemma_obj_view(fields);
                }
                return Some(Json::Obj(fields));
            }
            if !self.eat(',') {
                return None;
            }
            proof {
                if let Some((rest, end)) = members(s, self.at as int) {
                    assert(views(before) + (seq![field] + rest) == views(fields@) + rest);
                }
                pos = self.at as int;
            }
        }
    }

    /// An array; its opening bracket comes next.
    fn array(&mut self) -> (found: Option<Json>)
        requires
            old(self).wf(),
            stands(old(self).s@, old(self).at as int, '['),
        ensures
            final(self).wf(),
            final(self).s == old(self).s,
            found matches Some(v) ==> {
                &&& value(old(self).s@, old(self).at as int) == Some((v@, final(self).at as int))
                &&& final(self).at > old(self).at
            },
            found is None ==> value(old(self).s@, old(self).at as int) is None,
        decreases old(self).s@.len() - old(self).at, 0int,
    {
        let ghost s = self.s@;
        let ghost first = self.at + 1;
        self.at += 1;
        let mut items: Vec<Json> = Vec::new();
        self.ws();
        if self.eat(']') {
            proof {
                lemma_arr_view(items);
                assert(views(items@) == Seq::<JsonView>::empty());
            }
            return Some(Json::Arr(items));
        }
        let ghost mut pos = first;
        assert(views(items@) == Seq::<JsonView>::empty());
        proof {
            if let Some((rest, end)) = elements(s, first) {
                assert(views(items@) + rest == rest);
            }
        }
        loop
            invariant
                self.wf(),
                self.s == old(self).s,
                s == self.s@,
                stands(s, old(self).at as int, '['),
                first == old(self).at + 1,
                !stands(s, past_blanks(s, first), ']'),
                first <= pos <= self.at,
                past_blanks(s, pos) == past_blanks(s, self.at as int),
                elements(s, first) == match elements(s, pos) {
                    Some((rest, end)) => Some((views(items@) + rest, end)),
                    None => None,
                },
            decreases s.len() - self.at,
        {
            proof {
                lemma_past_blanks(s, self.at as int);
            }
            assert(value(s, pos) == value(s, self.at as int));
            let v = match self.value() {
                Some(v) => v,
                None => {
                    return None;
                },
            };
            let ghost before = items@;
            let ghost item = v@;
            items.push(v);
            assert(views(items@) == views(before) + seq![item]);
            self.ws();
            if self.eat(']') {
                proof {
                    lemma_arr_view(items);
                }
                return Some(Json::Arr(items));
            }
            if !self.eat(',') {
                return None;
            }
            proof {
                if let Some((rest, end)) = elements(s, self.at as int) {
                    assert(views(before) + (seq![item] + rest) == views(items@) + rest);
                }
                pos = self.at as int;
            }
        }
    }

    /// A string with both its quotes.
    fn string(&mut self) -> (found: Option<String>)
        requires
            old(self).wf(),
        ensures
            final(self).wf(),
            final(self).s == old(self).s,
            found matches Some(t) ==> {
                &&& string(old(self).s@, old(self).at as int) == Some((t@, final(self).at as int))
                &&& final(self).at > old(self).at
            },
            found is None ==> string(old(self).s@, old(self).at as int) is None,
    {
        if !self.eat('"') {
            return None;
        }
        let ghost s = self.s@;
        let ghost first = self.at as int;
        let mut out = String::new();
        proof {
            if let Some((rest, end)) = string_body(s, first) {
                assert(out@ + rest == rest);
            }
        }
        while self.at < self.s.len()
            invariant
                self.wf(),
                self.s == old(self).s,
                s == self.s@,
                first == old(self).at + 1,
                first <= self.at,
                stands(s, old(self).at as int, '"'),
                string_body(s, first) == match string_body(s, self.at as int) {
                    Some((rest, end)) => Some((out@ + rest, end)),
                    None => None,
                },
            decreases s.len() - self.at,
        {
            let ghost before = out@;
            let c: char = self.s[self.at];
            self.at += 1;
            if c == '"' {
                assert(out@ + Seq::<char>::empty() == out@);
                return Some(out);
            }
            let ch: char = if c == '\\' {
                match self.escape() {
                    Some(ch) => ch,
                    None => {
                        return None;
                    },
                }
            } else {
                c
            };
            out.push(ch);
            proof {
                if let Some((rest, end)) = string_body(s, self.at as int) {
                    assert(before + (seq![ch] + rest) == out@ + rest);
                }
            }
        }
        None
    }

    /// An escape sequence, after its backslash.
    fn escape(&mut self) -> (found: Option<char>)
        requires
            old(self).wf(),
        ensures
            final(self).wf(),
            final(self).s == old(self).s,
            found matches Some(c) ==> {
                &&& escape(old(self).s@, old(self).at as int) == Some((c, final(self).at as int))
                &&& final(self).at > old(self).at
            },
            found is None ==> escape(old(self).s@, old(self).at as int) is None,
    {
        if self.at >= self.s.len() {
            return None;
        }
        let c: char = self.s[self.at];
        self.at += 1;
        if c == '"' || c == '\\' || c == '/' {
            Some(c)
        } else if c == 'b' {
            Some('\x08')
        } else if c == 'f' {
            Some('\x0C')
        } else if c == 'n' {
            Some('\n')
        } else if c == 'r' {
            Some('\r')
        } else if c == 't' {
            Some('\t')
        } else if c == 'u' {
            let high: u32 = match self.hex4() {
                Some(high) => high,
                None => {
                    return None;
                },
            };
            let mut code: u32 = high;
            proof {
                reveal_strlit("\\u");
                assert("\\u"@ =~= seq!['\\', 'u']);
            }
            if 0xD800 <= high && high < 0xDC00 && self.eat_word("\\u") {
                let low: u32 = match self.hex4() {
                    Some(low) => low,
                    None => {
                        return None;
                    },
                };
                if low < 0xDC00 {
                    return None;
                }
                code = 0x10000 + (high - 0xD800) * 0x400 + (low - 0xDC00);
            }
            match char::from_u32(code) {
                Some(ch) => {
                    proof {
                        vstd::utf8::char_u32_cast(ch, code);
                    }
                    Some(ch)
                },
                None => Some('\u{FFFD}'),
            }
        } else {
            None
        }
    }

    /// Four characters as a hexadecimal number.
    fn hex4(&mut self) -> (found: Option<u32>)
        requires
            old(self).wf(),
        ensures
            final(self).wf(),
            final(self).s == old(self).s,
            found matches Some(n) ==> {
                &&& hex4(old(self).s@, old(self).at as int) == Some(n as nat)
                &&& final(self).at == old(self).at + 4
                &&& n <= 0xFFFF
            },
            found is None ==> hex4(old(self).s@, old(self).at as int) is None,
    {
        if self.s.len() - self.at < 4 {
            return None;
        }
        let from: usize = if self.s[self.at] == '+' { self.at + 1 } else { self.at };
        self.at += 4;
        let ghost all = self.s@.subrange(from as int, self.at as int);
        let mut n: u32 = 0;
        let mut i: usize = from;
        assert(all.take(0) == Seq::<char>::empty());
        while i < self.at
            invariant
                self.wf(),
                self.s == old(self).s,
                self.at == old(self).at + 4,
                from == if self.s@[old(self).at as int] == '+' {
                    old(self).at + 1
                } else {
                    old(self).at as int
                },
                from <= i <= self.at,
                all == self.s@.subrange(from as int, self.at as int),
                hex_value(all.take(i - from)) == Some(n as nat),
                i - from == 0 ==> n == 0,
                i - from == 1 ==> n < 0x10,
                i - from == 2 ==> n < 0x100,
                i - from == 3 ==> n < 0x1000,
                i - from == 4 ==> n < 0x10000,
            decreases self.at - i,
        {
            proof {
                assert(all.take(i - from + 1).drop_last() == all.take(i - from));
                assert(all.take(i - from + 1).last() == self.s@[i as int]);
            }
            match hex_digit_of(self.s[i]) {
                Some(d) => {
                    n = n * 16 + d;
                },
                None => {
                    proof {
                        lemma_hex_value_prefix(all, i - from + 1);
                    }
                    return None;
                },
            }
            i += 1;
        }
        assert(all.take(i - from) == all);
        Some(n)
    }

    /// A number, as the longest run of characters that numbers are made of.
    fn number(&mut self) -> (found: Option<Json>)
        requires
            old(self).wf(),
        ensures
            final(self).wf(),
            final(self).s == old(self).s,
            final(self).at == past_number(old(self).s@, old(self).at as int),
            final(self).at >= old(self).at,
            found matches Some(v) ==> {
                &&& v@ == JsonView::Num(
                    old(self).s@.subrange(old(self).at as int, final(self).at as int),
                )
                &&& is_number(v@->Num_0)
                &&& final(self).at > old(self).at
            },
            found is None ==> !is_number(
                old(self).s@.subrange(old(self).at as int, final(self).at as int),
            ),
    {
        let start: usize = self.at;
        while self.at < self.s.len() && is_number_part(self.s[self.at])
            invariant
                self.wf(),
                self.s == old(self).s,
                self.at >= start,
                start == old(self).at,
                past_number(self.s@, self.at as int) == past_number(self.s@, start as int),
            decreases self.s@.len() - self.at,
        {
            self.at += 1;
        }
        let run = slice_subrange(self.s, start, self.at);
        if number_text(run) {
            Some(Json::Num(text_of(run)))
        } else {
            None
        }
    }
}

proof fn lemma_past_blanks(s: Seq<char>, at: int)
    requires
        0 <= at <= s.len(),
    ensures
        at <= past_blanks(s, at) <= s.len(),
    decreases s.len() - at,
{
    if at < s.len() && is_blank(s[at]) {
        lemma_past_blanks(s, at + 1);
    }
}

proof fn lemma_hex_value_prefix(digits: Seq<char>, n: int)
    requires
        0 <= n <= digits.len(),
        hex_value(digits.take(n)) is None,
    ensures
        hex_value(digits) is None,
    decreases digits.len() - n,
{
    if n < digits.len() {
        assert(digits.take(n + 1).drop_last() == digits.take(n));
        lemma_hex_value_prefix(digits, n + 1);
    } else {
        assert(digits.take(n) == digits);
    }
}

fn hex_digit_of(c: char) -> (d: Option<u32>)
    ensures
        d matches Some(n) ==> hex_digit(c) == Some(n as nat) && n < 16,
        d is None ==> hex_digit(c) is None,
{
    if '0' <= c && c <= '9' {
        Some(c as u32 - 48)
    } else if 'a' <= c && c <= 'f' {
        Some(c as u32 - 87)
    } else if 'A' <= c && c <= 'F' {
        Some(c as u32 - 55)
    } else {
        None
    }
}

fn is_space_char(c: char) -> (yes: bool)
    ensures
        yes == is_blank(c),
{
    c == ' ' || c == '\t' || c == '\n' || c == '\x0C' || c == '\r'
}

fn is_number_part(c: char) -> (yes: bool)
    ensures
        yes == is_number_char(c),
{
    c == '-' || c == '+' || c == '.' || c == 'e' || c == 'E' || ('0' <= c && c <= '9')
}

/// How many digits `text` begins with.
fn digits_at_start(text: &[char]) -> (n: usize)
    ensures
        n <= text@.len(),
        all_digits(text@.take(n as int)),
        n < text@.len() ==> !is_digit(text@[n as int]),
{
    let mut n: usize = 0;
    while n < text.len() && '0' <= text[n] && text[n] <= '9'
        invariant
            n <= text@.len(),
            all_digits(text@.take(n as int)),
        decreases text@.len() - n,
    {
        assert(text@.take(n + 1) == text@.take(n as int).push(text@[n as int]));
        n += 1;
    }
    n
}

fn drop_sign(text: &[char]) -> (rest: &[char])
    ensures
        rest@ == unsigned(text@),
{
    if text.len() > 0 && (text[0] == '+' || text[0] == '-') {
        let rest = slice_subrange(text, 1, text.len());
        assert(rest@ == text@.skip(1));
        rest
    } else {
        text
    }
}

fn fraction_text(text: &[char]) -> (yes: bool)
    ensures
        yes == is_fraction(text@),
{
    let n: usize = digits_at_start(text);
    proof {
        assert forall|k: int| 0 <= k < n implies is_digit(#[trigger] text@[k]) by {
            assert(text@.take(n as int)[k] == text@[k]);
        }
    }
    if n == text.len() {
        assert(text@.take(n as int) == text@);
        if n == 0 {
            assert(!is_fraction(text@));
        }
        return n > 0;
    }
    proof {
        assert(!all_digits(text@)) by {
            assert(!is_digit(text@[n as int]));
        }
        // A point with digits alone before it is the first character that is no digit.
        assert forall|dot: int|
            #![trigger text@[dot]]
            0 <= dot < text@.len() && text@[dot] == '.' && all_digits(text@.take(dot)) implies dot
            == n by {
            if dot > n {
                assert(text@.take(dot)[n as int] == text@[n as int]);
            }
            if dot < n {
                assert(is_digit(text@[dot]));
            }
        }
    }
    if text[n] != '.' || text.len() == 1 {
        return false;
    }
    let rest = slice_subrange(text, n + 1, text.len());
    let m: usize = digits_at_start(rest);
    assert(rest@ == text@.skip(n + 1));
    if m == rest.len() {
        assert(rest@.take(m as int) == rest@);
        true
    } else {
        assert(!all_digits(rest@)) by {
            assert(!is_digit(rest@[m as int]));
        }
        false
    }
}

fn exponent_text(text: &[char]) -> (yes: bool)
    ensures
        yes == is_exponent(text@),
{
    let digits = drop_sign(text);
    let n: usize = digits_at_start(digits);
    if n == digits.len() {
        assert(digits@.take(n as int) == digits@);
        n > 0
    } else {
        assert(!is_digit(digits@[n as int]));
        false
    }
}

/// No letter stands in digits with a point.
proof fn lemma_fraction_has_no_letter(text: Seq<char>, at: int)
    requires
        is_fraction(text),
        0 <= at < text.len(),
    ensures
        is_digit(text[at]) || text[at] == '.',
{
    if !all_digits(text) {
        let dot = choose|dot: int|
            #![trigger text[dot]]
            0 <= dot < text.len() && text[dot] == '.' && text.len() > 1 && all_digits(
                text.take(dot),
            ) && all_digits(text.skip(dot + 1));
        if at < dot {
            assert(is_digit(text.take(dot)[at]));
        }
        if at > dot {
            assert(is_digit(text.skip(dot + 1)[at - dot - 1]));
        }
    }
}

fn number_text(text: &[char]) -> (yes: bool)
    ensures
        yes == is_number(text@),
{
    let body = drop_sign(text);
    let mut e: usize = 0;
    while e < body.len() && body[e] != 'e' && body[e] != 'E'
        invariant
            e <= body@.len(),
            forall|k: int| 0 <= k < e ==> #[trigger] body@[k] != 'e' && body@[k] != 'E',
        decreases body@.len() - e,
    {
        e += 1;
    }
    if e == body.len() {
        return fraction_text(body);
    }
    proof {
        if is_fraction(body@) {
            lemma_fraction_has_no_letter(body@, e as int);
        }
        assert forall|k: int|
            #![trigger body@[k]]
            0 <= k < body@.len() && (body@[k] == 'e' || body@[k] == 'E') && is_fraction(
                body@.take(k),
            ) implies k == e by {
            if k > e {
                lemma_fraction_has_no_letter(body@.take(k), e as int);
            }
        }
    }
    let mantissa = slice_subrange(body, 0, e);
    let exponent = slice_subrange(body, e + 1, body.len());
    assert(mantissa@ == body@.take(e as int));
    assert(exponent@ == body@.skip(e + 1));
    fraction_text(mantissa) && exponent_text(exponent)
}

} // verus!
