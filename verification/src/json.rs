//! JSON values, as far as replies of a model and requests of a client are read.

use serde_json::Value as Tree;
use vstd::prelude::*;

use crate::lists;
use crate::text;
use crate::text::{cat3, chars_of, same, text_of};

verus! {

/// A JSON value. A number is kept as it is written, and the members of an object by
/// name, in the order of their names.
#[derive(Debug, PartialEq, Eq)]
pub enum Json {
    Null,
    Bool(bool),
    Number(String),
    Text(String),
    List(Vec<Json>),
    Object(Vec<(String, Json)>),
}

/// A JSON value by its contents.
#[verifier::ext_equal]
pub enum JsonV {
    Null,
    Bool(bool),
    Number(Seq<char>),
    Text(Seq<char>),
    List(Seq<JsonV>),
    Object(Seq<(Seq<char>, JsonV)>),
}

impl Json {
    /// The value by its contents.
    pub open spec fn view(&self) -> JsonV
        decreases self,
    {
        match self {
            Json::Null => JsonV::Null,
            Json::Bool(b) => JsonV::Bool(*b),
            Json::Number(n) => JsonV::Number(n@),
            Json::Text(s) => JsonV::Text(s@),
            Json::List(items) => JsonV::List(
                Seq::new(
                    items@.len(),
                    |i: int|
                        if 0 <= i < items@.len() {
                            items@[i].view()
                        } else {
                            JsonV::Null
                        },
                ),
            ),
            Json::Object(members) => JsonV::Object(
                Seq::new(
                    members@.len(),
                    |i: int|
                        if 0 <= i < members@.len() {
                            (members@[i].0@, members@[i].1.view())
                        } else {
                            (Seq::empty(), JsonV::Null)
                        },
                ),
            ),
        }
    }
}

/// Values by their contents.
pub open spec fn item_views(v: Seq<Json>) -> Seq<JsonV> {
    Seq::new(v.len(), |i: int| v[i]@)
}

/// Members by their contents.
pub open spec fn member_views(v: Seq<(String, Json)>) -> Seq<(Seq<char>, JsonV)> {
    Seq::new(v.len(), |i: int| (v[i].0@, v[i].1@))
}

/// A list is viewed item by item.
pub proof fn lemma_list_view(items: Vec<Json>)
    ensures
        Json::List(items)@ == JsonV::List(item_views(items@)),
{
    assert(Json::List(items)@->List_0 =~= item_views(items@));
}

/// An object is viewed member by member.
pub proof fn lemma_object_view(members: Vec<(String, Json)>)
    ensures
        Json::Object(members)@ == JsonV::Object(member_views(members@)),
{
    assert(Json::Object(members)@->Object_0 =~= member_views(members@));
}

/// The place of the first member of that name from position `i` on, or their number.
pub open spec fn place_from(members: Seq<(Seq<char>, JsonV)>, name: Seq<char>, i: int) -> int
    decreases members.len() - i,
{
    if i < 0 || i >= members.len() {
        members.len() as int
    } else if members[i].0 == name {
        i
    } else {
        place_from(members, name, i + 1)
    }
}

/// The member of an object.
pub open spec fn member(j: JsonV, name: Seq<char>) -> Option<JsonV> {
    match j {
        JsonV::Object(members) => {
            let i = place_from(members, name, 0);
            if 0 <= i < members.len() {
                Some(members[i].1)
            } else {
                None
            }
        },
        _ => None,
    }
}

/// The place of the first member of that name, or their number.
pub fn place_of(members: &Vec<(String, Json)>, name: &str) -> (r: usize)
    ensures
        r == place_from(member_views(members@), name@, 0),
        r <= members@.len(),
{
    let ghost all = member_views(members@);
    let mut i: usize = 0;
    while i < members.len()
        invariant
            i <= members@.len(),
            all == member_views(members@),
            place_from(all, name@, 0) == place_from(all, name@, i as int),
        decreases members@.len() - i,
    {
        if same(members[i].0.as_str(), name) {
            return i;
        }
        i += 1;
    }
    members.len()
}

/// The text of a value, if it is one.
pub open spec fn as_text(j: Option<JsonV>) -> Option<Seq<char>> {
    match j {
        Some(JsonV::Text(s)) => Some(s),
        _ => None,
    }
}

/// The text of a member.
pub open spec fn text_member(j: JsonV, name: Seq<char>) -> Option<Seq<char>> {
    as_text(member(j, name))
}

/// The items of a list member, none where there is no such list.
pub open spec fn list_member(j: JsonV, name: Seq<char>) -> Seq<JsonV> {
    match member(j, name) {
        Some(JsonV::List(items)) => items,
        _ => Seq::empty(),
    }
}

/// The texts among values, in order.
pub open spec fn only_texts(items: Seq<JsonV>) -> Seq<Seq<char>>
    decreases items.len(),
{
    if items.len() == 0 {
        Seq::empty()
    } else {
        match items.last() {
            JsonV::Text(s) => only_texts(items.drop_last()).push(s),
            _ => only_texts(items.drop_last()),
        }
    }
}

impl Json {
    /// The member of an object.
    pub fn get(&self, name: &str) -> (r: Option<&Json>)
        ensures
            r is Some <==> member(self@, name@) is Some,
            r matches Some(j) ==> member(self@, name@) == Some(j@),
    {
        match self {
            Json::Object(members) => {
                proof {
                    lemma_object_view(*members);
                }
                let i = place_of(members, name);
                if i < members.len() {
                    Some(&members[i].1)
                } else {
                    None
                }
            },
            _ => None,
        }
    }
}

impl Json {
    /// The text, if the value is one.
    pub fn as_str(&self) -> (r: Option<&String>)
        ensures
            r is Some <==> self@ is Text,
            r matches Some(s) ==> self@ == JsonV::Text(s@),
    {
        match self {
            Json::Text(s) => Some(s),
            _ => None,
        }
    }

    /// The text of a member.
    pub fn text(&self, name: &str) -> (r: Option<&String>)
        ensures
            r is Some <==> text_member(self@, name@) is Some,
            r matches Some(s) ==> text_member(self@, name@) == Some(s@),
    {
        match self.get(name) {
            Some(j) => j.as_str(),
            None => None,
        }
    }

    /// The items of a list member, if there is such a list.
    pub fn items(&self, name: &str) -> (r: Option<&Vec<Json>>)
        ensures
            match r {
                Some(v) => list_member(self@, name@) == item_views(v@),
                None => list_member(self@, name@) == Seq::<JsonV>::empty(),
            },
    {
        match self.get(name) {
            Some(Json::List(items)) => {
                proof {
                    lemma_list_view(*items);
                }
                Some(items)
            },
            _ => None,
        }
    }

    /// The texts in a list member, in order.
    pub fn texts(&self, name: &str) -> (r: Vec<String>)
        ensures
            text::texts(r@) == only_texts(list_member(self@, name@)),
    {
        let mut out: Vec<String> = Vec::new();
        assert(text::texts(out@) =~= Seq::empty());
        if let Some(items) = self.items(name) {
            let ghost all = item_views(items@);
            let mut i: usize = 0;
            while i < items.len()
                invariant
                    i <= items@.len(),
                    all == item_views(items@),
                    text::texts(out@) == only_texts(all.take(i as int)),
                decreases items@.len() - i,
            {
                proof {
                    assert(all.take(i + 1).drop_last() =~= all.take(i as int));
                    assert(all.take(i + 1).last() == all[i as int]);
                }
                let ghost before = out@;
                if let Json::Text(s) = &items[i] {
                    out.push(s.clone());
                    assert(text::texts(out@) =~= text::texts(before).push(s@));
                }
                i += 1;
            }
            assert(all.take(i as int) =~= all);
        }
        out
    }
}

impl Clone for Json {
    fn clone(&self) -> (r: Json)
        ensures
            r@ == self@,
        decreases self,
    {
        match self {
            Json::Null => Json::Null,
            Json::Bool(b) => Json::Bool(*b),
            Json::Number(n) => Json::Number(n.clone()),
            Json::Text(s) => Json::Text(s.clone()),
            Json::List(items) => {
                let mut out: Vec<Json> = Vec::new();
                let mut i: usize = 0;
                while i < items.len()
                    invariant
                        i <= items@.len(),
                        out@.len() == i,
                        forall|k: int| 0 <= k < i ==> (#[trigger] out@[k])@ == items@[k]@,
                        *self matches Json::List(v) && v == items,
                    decreases items@.len() - i,
                {
                    let copy: Json = items[i].clone();
                    out.push(copy);
                    i += 1;
                }
                proof {
                    lemma_list_view(*items);
                    lemma_list_view(out);
                    assert(item_views(out@) =~= item_views(items@));
                }
                Json::List(out)
            },
            Json::Object(members) => {
                let mut out: Vec<(String, Json)> = Vec::new();
                let mut i: usize = 0;
                while i < members.len()
                    invariant
                        i <= members@.len(),
                        out@.len() == i,
                        forall|k: int|
                            0 <= k < i ==> (#[trigger] out@[k]).0@ == members@[k].0@ && out@[k].1@
                                == members@[k].1@,
                        *self matches Json::Object(v) && v == members,
                    decreases members@.len() - i,
                {
                    let copy: Json = members[i].1.clone();
                    out.push((members[i].0.clone(), copy));
                    i += 1;
                }
                proof {
                    lemma_object_view(*members);
                    lemma_object_view(out);
                    assert(member_views(out@) =~= member_views(members@));
                }
                Json::Object(out)
            },
        }
    }
}

// ── Building and writing ────────────────────────────────────────────────────────

/// A text.
pub fn text_value(s: &str) -> (r: Json)
    ensures
        r@ == JsonV::Text(s@),
{
    Json::Text(s.to_owned())
}

/// A list.
pub fn list_value(items: Vec<Json>) -> (r: Json)
    ensures
        r@ == JsonV::List(item_views(items@)),
{
    proof {
        lemma_list_view(items);
    }
    Json::List(items)
}

/// An object with one member.
pub fn object1(a: &str, x: Json) -> (r: Json)
    ensures
        r@ == JsonV::Object(seq![(a@, x@)]),
{
    let members: Vec<(String, Json)> = vec![(a.to_owned(), x)];
    proof {
        lemma_object_view(members);
        assert(member_views(members@) =~= seq![(a@, x@)]);
    }
    Json::Object(members)
}

/// An object with two members.
pub fn object2(a: &str, x: Json, b: &str, y: Json) -> (r: Json)
    ensures
        r@ == JsonV::Object(seq![(a@, x@), (b@, y@)]),
{
    let members: Vec<(String, Json)> = vec![(a.to_owned(), x), (b.to_owned(), y)];
    proof {
        lemma_object_view(members);
        assert(member_views(members@) =~= seq![(a@, x@), (b@, y@)]);
    }
    Json::Object(members)
}

/// An object with three members.
pub fn object3(a: &str, x: Json, b: &str, y: Json, c: &str, z: Json) -> (r: Json)
    ensures
        r@ == JsonV::Object(seq![(a@, x@), (b@, y@), (c@, z@)]),
{
    let members: Vec<(String, Json)> = vec![
        (a.to_owned(), x),
        (b.to_owned(), y),
        (c.to_owned(), z),
    ];
    proof {
        lemma_object_view(members);
        assert(member_views(members@) =~= seq![(a@, x@), (b@, y@), (c@, z@)]);
    }
    Json::Object(members)
}

/// The character of one hexadecimal digit, in lower case.
pub open spec fn hex_char(k: nat) -> char {
    if k < 10 {
        text::digit_char(k)
    } else {
        (87 + k) as char
    }
}

/// How a character stands in a JSON text: quotes and backslashes behind a backslash,
/// control characters by their short escape or by their number, and all others as they
/// are.
pub open spec fn escaped(c: char) -> Seq<char> {
    if c == '"' || c == '\\' {
        seq!['\\', c]
    } else if c == '\u{8}' {
        seq!['\\', 'b']
    } else if c == '\t' {
        seq!['\\', 't']
    } else if c == '\n' {
        seq!['\\', 'n']
    } else if c == '\u{c}' {
        seq!['\\', 'f']
    } else if c == '\r' {
        seq!['\\', 'r']
    } else if c <= '\u{1f}' {
        seq!['\\', 'u', '0', '0', hex_char(c as nat / 16), hex_char(c as nat % 16)]
    } else {
        seq![c]
    }
}

/// The characters of a text, each as it stands in a JSON text.
pub open spec fn escaped_text(s: Seq<char>) -> Seq<char>
    decreases s.len(),
{
    if s.len() == 0 {
        Seq::empty()
    } else {
        escaped_text(s.drop_last()) + escaped(s.last())
    }
}

/// A text as JSON: in quotes, with escapes.
pub open spec fn json_quoted(s: Seq<char>) -> Seq<char> {
    seq!['"'] + escaped_text(s) + seq!['"']
}

/// Exec form of [`hex_char`].
fn hex_digit(k: u8) -> (c: char)
    requires
        k < 16,
    ensures
        c == hex_char(k as nat),
{
    if k < 10 {
        (48 + k) as char
    } else {
        (87 + k) as char
    }
}

/// Append a character as it stands in a JSON text.
fn push_escaped(out: &mut String, c: char)
    ensures
        final(out)@ == old(out)@ + escaped(c),
{
    let short: Option<char> = match c {
        '"' => Some('"'),
        '\\' => Some('\\'),
        '\u{8}' => Some('b'),
        '\t' => Some('t'),
        '\n' => Some('n'),
        '\u{c}' => Some('f'),
        '\r' => Some('r'),
        _ => None,
    };
    if let Some(e) = short {
        out.push('\\');
        out.push(e);
    } else if c <= '\u{1f}' {
        let k: u8 = c as u8;
        out.push('\\');
        out.push('u');
        out.push('0');
        out.push('0');
        out.push(hex_digit(k / 16));
        out.push(hex_digit(k % 16));
    } else {
        out.push(c);
    }
    assert(out@ =~= old(out)@ + escaped(c));
}

/// Write a text as JSON: in quotes, with escapes.
pub fn quote_json(s: &str) -> (r: String)
    ensures
        r@ == json_quoted(s@),
{
    let chars = chars_of(s);
    let mut out = String::new();
    out.push('"');
    let mut i: usize = 0;
    while i < chars.len()
        invariant
            i <= chars@.len(),
            out@ == seq!['"'] + escaped_text(chars@.take(i as int)),
        decreases chars@.len() - i,
    {
        proof {
            let front = chars@.take(i + 1);
            assert(front.drop_last() =~= chars@.take(i as int));
            assert(front.last() == chars@[i as int]);
            assert(escaped_text(front) == escaped_text(chars@.take(i as int)) + escaped(
                chars@[i as int],
            ));
        }
        push_escaped(&mut out, chars[i]);
        i += 1;
    }
    assert(chars@.take(i as int) =~= chars@);
    out.push('"');
    assert(out@ =~= json_quoted(s@));
    out
}

/// A value as JSON, without white space.
pub open spec fn written(j: JsonV) -> Seq<char>
    decreases j,
{
    match j {
        JsonV::Null => "null"@,
        JsonV::Bool(b) => if b {
            "true"@
        } else {
            "false"@
        },
        JsonV::Number(n) => n,
        JsonV::Text(s) => json_quoted(s),
        JsonV::List(items) => "["@ + written_items(items) + "]"@,
        JsonV::Object(members) => "{"@ + written_members(members) + "}"@,
    }
}

/// Values as JSON, commas between them.
pub open spec fn written_items(items: Seq<JsonV>) -> Seq<char>
    decreases items,
{
    if items.len() == 0 {
        Seq::empty()
    } else if items.len() == 1 {
        written(items.last())
    } else {
        written_items(items.drop_last()) + ","@ + written(items.last())
    }
}

/// Members as JSON, commas between them.
pub open spec fn written_members(members: Seq<(Seq<char>, JsonV)>) -> Seq<char>
    decreases members,
{
    if members.len() == 0 {
        Seq::empty()
    } else {
        let last = json_quoted(members.last().0) + ":"@ + written(members.last().1);
        if members.len() == 1 {
            last
        } else {
            written_members(members.drop_last()) + ","@ + last
        }
    }
}

/// Write a value as JSON, without white space.
pub fn write_json(j: &Json) -> (r: String)
    ensures
        r@ == written(j@),
    decreases j,
{
    match j {
        Json::Null => "null".to_owned(),
        Json::Bool(b) => if *b {
            "true".to_owned()
        } else {
            "false".to_owned()
        },
        Json::Number(n) => n.clone(),
        Json::Text(s) => quote_json(s.as_str()),
        Json::List(items) => {
            let ghost all = item_views(items@);
            let mut out = String::new();
            let mut i: usize = 0;
            while i < items.len()
                invariant
                    i <= items@.len(),
                    all == item_views(items@),
                    *j matches Json::List(v) && v == items,
                    out@ == written_items(all.take(i as int)),
                decreases items@.len() - i,
            {
                proof {
                    assert(all.take(i + 1).drop_last() =~= all.take(i as int));
                    assert(all.take(i + 1).last() == all[i as int]);
                }
                let part = write_json(&items[i]);
                out = if i == 0 {
                    part
                } else {
                    cat3(out.as_str(), ",", part.as_str())
                };
                i += 1;
            }
            proof {
                assert(all.take(i as int) =~= all);
                lemma_list_view(*items);
            }
            cat3("[", out.as_str(), "]")
        },
        Json::Object(members) => {
            let ghost all = member_views(members@);
            let mut out = String::new();
            let mut i: usize = 0;
            while i < members.len()
                invariant
                    i <= members@.len(),
                    all == member_views(members@),
                    *j matches Json::Object(v) && v == members,
                    out@ == written_members(all.take(i as int)),
                decreases members@.len() - i,
            {
                proof {
                    assert(all.take(i + 1).drop_last() =~= all.take(i as int));
                    assert(all.take(i + 1).last() == all[i as int]);
                }
                let name = quote_json(members[i].0.as_str());
                let value = write_json(&members[i].1);
                let part = cat3(name.as_str(), ":", value.as_str());
                out = if i == 0 {
                    part
                } else {
                    cat3(out.as_str(), ",", part.as_str())
                };
                i += 1;
            }
            proof {
                assert(all.take(i as int) =~= all);
                lemma_object_view(*members);
            }
            cat3("{", out.as_str(), "}")
        },
    }
}

// ── Reading JSON out of a reply ─────────────────────────────────────────────────

/// What `serde_json` reads a text as.
pub uninterp spec fn json_reading(s: Seq<char>) -> Option<JsonV>;

/// The value of an option by its contents.
pub open spec fn option_view(j: Option<Json>) -> Option<JsonV> {
    match j {
        Some(j) => Some(j@),
        None => None,
    }
}

/// A `serde_json::Value`: a JSON value as that crate holds it.
#[verifier::external_type_specification]
#[verifier::external_body]
pub struct ExTree(Tree);

/// What a value of `serde_json` holds: variant by variant, a number as it is displayed,
/// and the members of an object in the order in which its map is walked, which is that of
/// their names.
pub uninterp spec fn json_contents(v: Tree) -> JsonV;

/// Parses a text with `serde_json::from_str` into a `serde_json::Value`; `None` where that
/// fails. Claimed is that what the value holds depends on the text alone; which value a
/// text denotes is left to the crate.
#[verifier::external_body]
fn read_value(text: &str) -> (r: Option<Tree>)
    ensures
        r matches Some(v) ==> json_reading(text@) == Some(json_contents(v)),
        r is None ==> json_reading(text@) is None,
{
    serde_json::from_str(text).ok()
}

/// Moves what a `serde_json::Value` holds into a [`Json`], variant by variant, with
/// `Display` of a number and the `into_iter` of an array and of an object. Claimed is that
/// the outcome is what the value holds.
#[verifier::external_body]
fn json_of(v: Tree) -> (r: Json)
    ensures
        r@ == json_contents(v),
{
    match v {
        Tree::Null => Json::Null,
        Tree::Bool(b) => Json::Bool(b),
        Tree::Number(n) => Json::Number(n.to_string()),
        Tree::String(s) => Json::Text(s),
        Tree::Array(items) => Json::List(items.into_iter().map(json_of).collect()),
        Tree::Object(members) => Json::Object(
            members.into_iter().map(|(k, v)| (k, json_of(v))).collect(),
        ),
    }
}

/// Read a text as JSON; `None` where it is none.
pub fn parse_json(text: &str) -> (r: Option<Json>)
    ensures
        option_view(r) == json_reading(text@),
{
    match read_value(text) {
        Some(v) => Some(json_of(v)),
        None => None,
    }
}

/// What `serde_json` lays a value out as.
pub uninterp spec fn json_layout(j: JsonV) -> Option<Seq<char>>;

/// Lays a value out over several lines with `serde_json::to_string_pretty`; `None` where
/// that fails. Claimed is that the outcome depends on what the value holds alone; where
/// the lines break is left to the crate.
#[verifier::external_body]
fn lay_out(v: &Tree) -> (r: Option<String>)
    ensures
        text::option_text(r) == json_layout(json_contents(*v)),
{
    serde_json::to_string_pretty(v).ok()
}

/// A JSON text laid out over several lines; `None` where it is none.
pub open spec fn json_pretty(s: Seq<char>) -> Option<Seq<char>> {
    match json_reading(s) {
        Some(j) => json_layout(j),
        None => None,
    }
}

/// Lay a JSON text out over several lines; `None` where it is none.
pub fn pretty_json(text: &str) -> (r: Option<String>)
    ensures
        text::option_text(r) == json_pretty(text@),
{
    match read_value(text) {
        Some(v) => lay_out(&v),
        None => None,
    }
}

/// The bracket that closes an opening one.
pub open spec fn closing(c: char) -> Option<char> {
    if c == '{' {
        Some('}')
    } else if c == '[' {
        Some(']')
    } else {
        None
    }
}

/// Where a bracketed text ends: from position `i` on, at nesting depth `depth`, inside a
/// string or not, right after a backslash in one or not. Brackets inside strings do not
/// count.
pub open spec fn balanced_end(
    s: Seq<char>,
    i: int,
    open_char: char,
    close_char: char,
    depth: int,
    in_string: bool,
    escaped: bool,
) -> Option<int>
    decreases s.len() - i,
{
    if i < 0 || i >= s.len() {
        None
    } else if in_string {
        if escaped {
            balanced_end(s, i + 1, open_char, close_char, depth, true, false)
        } else if s[i] == '\\' {
            balanced_end(s, i + 1, open_char, close_char, depth, true, true)
        } else {
            balanced_end(s, i + 1, open_char, close_char, depth, s[i] != '"', false)
        }
    } else if s[i] == '"' {
        balanced_end(s, i + 1, open_char, close_char, depth, true, false)
    } else if s[i] == open_char {
        balanced_end(s, i + 1, open_char, close_char, depth + 1, false, false)
    } else if s[i] == close_char {
        if depth <= 1 {
            Some(i)
        } else {
            balanced_end(s, i + 1, open_char, close_char, depth - 1, false, false)
        }
    } else {
        balanced_end(s, i + 1, open_char, close_char, depth, false, false)
    }
}

/// The end of the bracketed text that starts at `i`, if one starts there and ends.
pub open spec fn candidate_end(s: Seq<char>, i: int) -> Option<int> {
    match closing(s[i]) {
        Some(c) => balanced_end(s, i, s[i], c, 0, false, false),
        None => None,
    }
}

/// The first bracketed text from `i` on that is JSON.
pub open spec fn json_from(s: Seq<char>, i: int) -> Option<JsonV>
    decreases s.len() - i,
{
    if i < 0 || i >= s.len() {
        None
    } else {
        match candidate_end(s, i) {
            Some(k) => match json_reading(s.subrange(i, k + 1)) {
                Some(j) => Some(j),
                None => json_from(s, i + 1),
            },
            None => json_from(s, i + 1),
        }
    }
}

/// Prose without brackets holds no JSON.
pub proof fn lemma_prose_holds_none(s: Seq<char>, i: int)
    requires
        0 <= i <= s.len(),
        forall|k: int| i <= k < s.len() ==> closing(#[trigger] s[k]) is None,
    ensures
        json_from(s, i) is None,
    decreases s.len() - i,
{
    if i < s.len() {
        assert(closing(s[i]) is None);
        lemma_prose_holds_none(s, i + 1);
    }
}

/// JSON is found behind prose: what stands before the first bracket does not matter, and
/// where the text in brackets there reads as JSON, that is what is found.
pub proof fn lemma_json_behind_prose(s: Seq<char>, i: int, start: int, end: int)
    requires
        0 <= i <= start <= end < s.len(),
        forall|k: int| i <= k < start ==> closing(#[trigger] s[k]) is None,
        candidate_end(s, start) == Some(end),
        json_reading(s.subrange(start, end + 1)) is Some,
    ensures
        json_from(s, i) == json_reading(s.subrange(start, end + 1)),
    decreases start - i,
{
    if i < start {
        assert(closing(s[i]) is None);
        lemma_json_behind_prose(s, i + 1, start, end);
    }
}

/// The end of the bracketed text that starts at `start`.
pub fn find_end(chars: &Vec<char>, start: usize) -> (r: Option<usize>)
    requires
        start < chars@.len(),
    ensures
        match r {
            Some(k) => candidate_end(chars@, start as int) == Some(k as int) && start <= k
                < chars@.len(),
            None => candidate_end(chars@, start as int) is None,
        },
{
    let ghost s = chars@;
    let open_char = chars[start];
    let close_char = if open_char == '{' {
        '}'
    } else if open_char == '[' {
        ']'
    } else {
        return None;
    };
    let n = chars.len();
    let mut depth: usize = 0;
    let mut in_string = false;
    let mut escaped = false;
    let mut i: usize = start;
    while i < n
        invariant
            start <= i <= n,
            n == s.len(),
            s == chars@,
            depth <= i - start,
            in_string || !escaped,
            candidate_end(s, start as int) == balanced_end(
                s,
                i as int,
                open_char,
                close_char,
                depth as int,
                in_string,
                escaped,
            ),
        decreases n - i,
    {
        let c = chars[i];
        if in_string {
            if escaped {
                escaped = false;
            } else if c == '\\' {
                escaped = true;
            } else if c == '"' {
                in_string = false;
            }
        } else if c == '"' {
            in_string = true;
        } else if c == open_char {
            depth = depth + 1;
        } else if c == close_char {
            if depth <= 1 {
                return Some(i);
            }
            depth = depth - 1;
        }
        i += 1;
    }
    None
}

/// Pull the first JSON object or array out of a completion.
///
/// Models wrap JSON in prose or a ```json fence often enough that retrying on a
/// strict parse would waste a call per request. Scanning for the first balanced
/// brace — string- and escape-aware, so a `{` inside a quoted rule statement does not
/// throw off the depth count — recovers the payload without a second round trip.
pub fn extract_json(text: &str) -> (r: Option<Json>)
    ensures
        option_view(r) == json_from(text@, 0),
{
    let chars = chars_of(text);
    let ghost s = text@;
    let n = chars.len();
    let mut start: usize = 0;
    while start < n
        invariant
            start <= n,
            n == s.len(),
            s == chars@,
            s == text@,
            json_from(s, 0) == json_from(s, start as int),
        decreases n - start,
    {
        if let Some(k) = find_end(&chars, start) {
            let piece = text_of(&chars, start, k + 1);
            if let Some(j) = parse_json(piece.as_str()) {
                return Some(j);
            }
        }
        start += 1;
    }
    None
}

// ── What a selection keeps ──────────────────────────────────────────────────────

/// The texts among values are exactly those, each once and in order.
pub proof fn lemma_only_texts(items: Seq<JsonV>) -> (at: Seq<int>)
    ensures
        lists::ascending(at, items.len() as int),
        only_texts(items).len() == at.len(),
        forall|k: int|
            #![trigger at[k]]
            0 <= k < at.len() ==> {
                &&& items[at[k]] is Text
                &&& items[at[k]] == JsonV::Text(only_texts(items)[k])
            },
        forall|i: int|
            #![trigger items[i]]
            0 <= i < items.len() && items[i] is Text ==> at.contains(i),
    decreases items.len(),
{
    if items.len() == 0 {
        Seq::empty()
    } else {
        let init = items.drop_last();
        let n = init.len() as int;
        let front = lemma_only_texts(init);
        lists::lemma_extended(front, n);
        let e = items[n];
        let at = if e is Text {
            front.push(n)
        } else {
            front
        };
        assert forall|k: int| #![trigger at[k]] 0 <= k < at.len() implies {
            &&& items[at[k]] is Text
            &&& items[at[k]] == JsonV::Text(only_texts(items)[k])
        } by {
            if k < front.len() {
                assert(only_texts(init)[k] == only_texts(items)[k]);
                assert(init[front[k]] == items[front[k]]);
            }
        }
        assert forall|i: int|
            #![trigger items[i]]
            0 <= i < items.len() && items[i] is Text implies at.contains(i) by {
            if i < n {
                assert(init[i] == items[i]);
                assert(front.contains(i));
            }
        }
        at
    }
}

/// The place of a member is that of the first one of the name.
pub proof fn lemma_place_from(members: Seq<(Seq<char>, JsonV)>, name: Seq<char>, i: int)
    requires
        0 <= i <= members.len(),
    ensures
        i <= place_from(members, name, i) <= members.len(),
        forall|k: int|
            i <= k < place_from(members, name, i) ==> (#[trigger] members[k]).0 != name,
        place_from(members, name, i) < members.len() ==> members[place_from(
            members,
            name,
            i,
        )].0 == name,
    decreases members.len() - i,
{
    if i < members.len() && members[i].0 != name {
        lemma_place_from(members, name, i + 1);
    }
}

/// The member of a name is the first one of that name, and there is none exactly where no
/// member has the name.
pub proof fn lemma_member(members: Seq<(Seq<char>, JsonV)>, name: Seq<char>)
    ensures
        member(JsonV::Object(members), name) is None <==> forall|k: int|
            0 <= k < members.len() ==> (#[trigger] members[k]).0 != name,
        member(JsonV::Object(members), name) matches Some(v) ==> exists|i: int|
            #![trigger members[i]]
            {
                &&& 0 <= i < members.len()
                &&& members[i] == (name, v)
                &&& forall|k: int| 0 <= k < i ==> (#[trigger] members[k]).0 != name
            },
{
    lemma_place_from(members, name, 0);
    let i = place_from(members, name, 0);
    if i < members.len() {
        assert(members[i].0 == name);
        assert(members[i] == (name, members[i].1));
    }
}

/// The first bracketed text that reads as JSON is found: where one is found, it stands
/// between brackets somewhere in the text, and no bracketed text that starts earlier reads
/// as JSON; and where none is found, none does.
pub proof fn lemma_first_json(s: Seq<char>, i: int)
    requires
        0 <= i <= s.len(),
    ensures
        json_from(s, i) matches Some(j) ==> exists|n: int|
            #![trigger candidate_end(s, n)]
            {
                &&& i <= n < s.len()
                &&& candidate_end(s, n) matches Some(k)
                &&& json_reading(s.subrange(n, k + 1)) == Some(j)
                &&& forall|m: int|
                    #![trigger candidate_end(s, m)]
                    i <= m < n ==> (candidate_end(s, m) matches Some(k) ==> json_reading(
                        s.subrange(m, k + 1),
                    ) is None)
            },
        json_from(s, i) is None ==> forall|m: int|
            #![trigger candidate_end(s, m)]
            i <= m < s.len() ==> (candidate_end(s, m) matches Some(k) ==> json_reading(
                s.subrange(m, k + 1),
            ) is None),
    decreases s.len() - i,
{
    if i < s.len() {
        lemma_first_json(s, i + 1);
        let here = candidate_end(s, i);
        let settled = here is Some && json_reading(s.subrange(i, here->0 + 1)) is Some;
        if !settled && json_from(s, i) is Some {
            let j = json_from(s, i)->0;
            let n = choose|n: int|
                #![trigger candidate_end(s, n)]
                {
                    &&& i + 1 <= n < s.len()
                    &&& candidate_end(s, n) matches Some(k)
                    &&& json_reading(s.subrange(n, k + 1)) == Some(j)
                    &&& forall|m: int|
                        #![trigger candidate_end(s, m)]
                        i + 1 <= m < n ==> (candidate_end(s, m) matches Some(k) ==> json_reading(
                            s.subrange(m, k + 1),
                        ) is None)
                };
            assert(candidate_end(s, n) is Some);
        }
    }
}

// ── Bracketed texts ─────────────────────────────────────────────────────────────

/// The brackets of one kind that are open before position `j`, where no text in quotes
/// starts between.
pub open spec fn open_before(s: Seq<char>, i: int, j: int, open_char: char, close_char: char) -> int
    decreases j - i,
{
    if j <= i {
        0
    } else {
        open_before(s, i, j - 1, open_char, close_char) + if s[j - 1] == open_char {
            1int
        } else if s[j - 1] == close_char {
            -1int
        } else {
            0int
        }
    }
}

proof fn lemma_open_step(s: Seq<char>, i: int, j: int, open_char: char, close_char: char)
    requires
        i < j,
    ensures
        open_before(s, i, j, open_char, close_char) == open_before(
            s,
            i + 1,
            j,
            open_char,
            close_char,
        ) + open_before(s, i, i + 1, open_char, close_char),
    decreases j - i,
{
    reveal_with_fuel(open_before, 2);
    if i + 1 < j {
        lemma_open_step(s, i, j - 1, open_char, close_char);
    }
}

proof fn lemma_balanced(
    s: Seq<char>,
    i: int,
    end: int,
    open_char: char,
    close_char: char,
    depth: int,
)
    requires
        0 <= i <= end < s.len(),
        depth >= 1,
        open_char != close_char,
        open_char != '"',
        close_char != '"',
        forall|k: int| i <= k <= end ==> #[trigger] s[k] != '"',
        forall|k: int|
            i < k <= end ==> depth + #[trigger] open_before(s, i, k, open_char, close_char) > 0,
        depth + open_before(s, i, end + 1, open_char, close_char) == 0,
    ensures
        balanced_end(s, i, open_char, close_char, depth, false, false) == Some(end),
    decreases end - i,
{
    assert(s[i] != '"');
    reveal_with_fuel(open_before, 2);
    let step = open_before(s, i, i + 1, open_char, close_char);
    if i < end {
        assert(depth + step > 0);
        assert forall|k: int| i + 1 < k <= end implies depth + step + #[trigger] open_before(
            s,
            i + 1,
            k,
            open_char,
            close_char,
        ) > 0 by {
            lemma_open_step(s, i, k, open_char, close_char);
            assert(depth + open_before(s, i, k, open_char, close_char) > 0);
        }
        lemma_open_step(s, i, end + 1, open_char, close_char);
        lemma_balanced(s, i + 1, end, open_char, close_char, depth + step);
    }
}

/// A bracketed text without quotes ends where as many brackets of its kind have been closed
/// as were opened.
pub proof fn lemma_bracketed(s: Seq<char>, i: int, end: int, close_char: char)
    requires
        0 <= i < end < s.len(),
        (s[i] == '{' && close_char == '}') || (s[i] == '[' && close_char == ']'),
        forall|k: int| i <= k <= end ==> #[trigger] s[k] != '"',
        forall|k: int| i < k <= end ==> #[trigger] open_before(s, i, k, s[i], close_char) > 0,
        open_before(s, i, end + 1, s[i], close_char) == 0,
    ensures
        candidate_end(s, i) == Some(end),
{
    reveal_with_fuel(open_before, 2);
    assert(open_before(s, i, i + 1, s[i], close_char) == 1);
    assert forall|k: int| i + 1 < k <= end implies 1 + #[trigger] open_before(
        s,
        i + 1,
        k,
        s[i],
        close_char,
    ) > 0 by {
        lemma_open_step(s, i, k, s[i], close_char);
        assert(open_before(s, i, k, s[i], close_char) > 0);
    }
    lemma_open_step(s, i, end + 1, s[i], close_char);
    assert(s[i] != '"');
    lemma_balanced(s, i + 1, end, s[i], close_char, 1);
}

proof fn lemma_quoted_ignored(
    s: Seq<char>,
    i: int,
    q: int,
    open_char: char,
    close_char: char,
    depth: int,
)
    requires
        0 <= i <= q < s.len(),
        s[q] == '"',
        forall|k: int| i <= k < q ==> #[trigger] s[k] != '"' && s[k] != '\\',
    ensures
        balanced_end(s, i, open_char, close_char, depth, true, false) == balanced_end(
            s,
            q + 1,
            open_char,
            close_char,
            depth,
            false,
            false,
        ),
    decreases q - i,
{
    if i < q {
        assert(s[i] != '"' && s[i] != '\\');
        lemma_quoted_ignored(s, i + 1, q, open_char, close_char, depth);
    }
}

/// What stands in quotes does not count, whatever brackets it holds, and a quote or a
/// backslash behind a backslash does not end it.
pub proof fn lemma_quoted_text(
    s: Seq<char>,
    i: int,
    q: int,
    open_char: char,
    close_char: char,
    depth: int,
)
    requires
        0 <= i < q < s.len(),
        s[i] == '"',
        s[q] == '"',
        forall|k: int| i < k < q ==> #[trigger] s[k] != '"' && s[k] != '\\',
    ensures
        balanced_end(s, i, open_char, close_char, depth, false, false) == balanced_end(
            s,
            q + 1,
            open_char,
            close_char,
            depth,
            false,
            false,
        ),
{
    lemma_quoted_ignored(s, i + 1, q, open_char, close_char, depth);
}

/// Behind a backslash any character is part of the text in quotes.
pub proof fn lemma_escape_skipped(
    s: Seq<char>,
    i: int,
    open_char: char,
    close_char: char,
    depth: int,
)
    requires
        0 <= i,
        i + 1 < s.len(),
        s[i] == '\\',
    ensures
        balanced_end(s, i, open_char, close_char, depth, true, false) == balanced_end(
            s,
            i + 2,
            open_char,
            close_char,
            depth,
            true,
            false,
        ),
{
    reveal_with_fuel(balanced_end, 3);
}

} // verus!
