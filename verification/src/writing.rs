//! What JSON is written: a text is read back from its escapes, and a written value can be
//! told from what follows it.

use vstd::prelude::*;

use crate::json;
use crate::json::JsonV;

verus! {

// ── Escapes ─────────────────────────────────────────────────────────────────────

/// The number of a hexadecimal digit.
pub open spec fn hex_value(c: char) -> int {
    if '0' <= c <= '9' {
        c as int - '0' as int
    } else if 'a' <= c <= 'f' {
        c as int - 'a' as int + 10
    } else {
        c as int - 'A' as int + 10
    }
}

/// The character that an escape stands for, from the character behind the backslash and, for
/// an escape by number, the four digits behind that.
pub open spec fn unescaped(s: Seq<char>) -> char {
    let c = s[1];
    if c == 'b' {
        '\u{8}'
    } else if c == 't' {
        '\u{9}'
    } else if c == 'n' {
        '\u{a}'
    } else if c == 'f' {
        '\u{c}'
    } else if c == 'r' {
        '\u{d}'
    } else if c == 'u' {
        (hex_value(s[2]) * 4096 + hex_value(s[3]) * 256 + hex_value(s[4]) * 16 + hex_value(
            s[5],
        )) as char
    } else {
        c
    }
}

/// How many characters the first item of a JSON text takes: an escape by number six, another
/// escape two, and any other character one.
pub open spec fn item_len(s: Seq<char>) -> int {
    if s[0] != '\\' {
        1
    } else if s.len() > 1 && s[1] == 'u' {
        6
    } else {
        2
    }
}

/// The text that the inside of a JSON text stands for.
pub open spec fn read_back(s: Seq<char>) -> Seq<char>
    decreases s.len(),
{
    if s.len() == 0 || item_len(s) > s.len() {
        Seq::empty()
    } else {
        seq![
            if s[0] == '\\' {
                unescaped(s)
            } else {
                s[0]
            },
        ] + read_back(s.skip(item_len(s)))
    }
}

proof fn lemma_hex(k: nat)
    requires
        k < 16,
    ensures
        hex_value(json::hex_char(k)) == k,
        json::hex_char(k) != '"',
        json::hex_char(k) != '\\',
        json::hex_char(k) > '\u{1f}',
{
}

proof fn lemma_escaped_one(c: char, rest: Seq<char>)
    ensures
        read_back(json::escaped(c) + rest) == seq![c] + read_back(rest),
{
    let s = json::escaped(c) + rest;
    let e = json::escaped(c);
    if c <= '\u{1f}' {
        lemma_hex(c as nat / 16);
        lemma_hex(c as nat % 16);
        assert(c as nat == (c as nat / 16) * 16 + c as nat % 16);
    }
    assert forall|k: int| 0 <= k < e.len() implies s[k] == #[trigger] e[k] by {}
    assert(hex_value('0') == 0);
    assert(s[0] == e[0]);
    if e.len() > 1 {
        assert(s[1] == e[1]);
    }
    if e.len() > 2 {
        assert(s[2] == e[2] && s[3] == e[3] && s[4] == e[4] && s[5] == e[5]);
    }
    assert(item_len(s) == e.len());
    assert(s.skip(e.len() as int) =~= rest);
}

/// Escapes stand for each character on its own.
pub proof fn lemma_escaped_together(a: Seq<char>, b: Seq<char>)
    ensures
        json::escaped_text(a + b) == json::escaped_text(a) + json::escaped_text(b),
    decreases b.len(),
{
    if b.len() == 0 {
        assert(a + b =~= a);
        assert(json::escaped_text(a) + json::escaped_text(b) =~= json::escaped_text(a));
    } else {
        lemma_escaped_together(a, b.drop_last());
        assert((a + b).drop_last() =~= a + b.drop_last());
        assert(json::escaped_text(a) + json::escaped_text(b.drop_last()) + json::escaped(b.last())
            =~= json::escaped_text(a) + (json::escaped_text(b.drop_last()) + json::escaped(
            b.last(),
        )));
    }
}

proof fn lemma_escaped_first(s: Seq<char>)
    requires
        s.len() > 0,
    ensures
        json::escaped_text(s) == json::escaped(s[0]) + json::escaped_text(s.drop_first()),
{
    let one = seq![s[0]];
    assert(one.drop_last() =~= Seq::empty());
    assert(json::escaped_text(one.drop_last()) =~= Seq::<char>::empty());
    assert(json::escaped_text(one) =~= json::escaped(s[0]));
    assert(one + s.drop_first() =~= s);
    lemma_escaped_together(one, s.drop_first());
}

/// What is written of a text stands for that text: undoing the escapes gives it back.
pub proof fn lemma_text_read_back(s: Seq<char>)
    ensures
        read_back(json::escaped_text(s)) == s,
    decreases s.len(),
{
    if s.len() > 0 {
        lemma_escaped_first(s);
        lemma_text_read_back(s.drop_first());
        lemma_escaped_one(s[0], json::escaped_text(s.drop_first()));
        assert(seq![s[0]] + s.drop_first() =~= s);
    }
}

proof fn lemma_escaped_chars(c: char)
    ensures
        forall|k: int| 0 <= k < json::escaped(c).len() ==> (#[trigger] json::escaped(c)[k])
            > '\u{1f}',
{
    if c <= '\u{1f}' {
        lemma_hex(c as nat / 16);
        lemma_hex(c as nat % 16);
    }
}

/// A written text stands between quotes, and none of its characters is a control character.
pub proof fn lemma_text_quoted(s: Seq<char>)
    ensures
        json::json_quoted(s).len() == json::escaped_text(s).len() + 2,
        json::json_quoted(s)[0] == '"',
        json::json_quoted(s).last() == '"',
        json::json_quoted(s).subrange(1, json::json_quoted(s).len() - 1) == json::escaped_text(s),
        forall|i: int|
            0 <= i < json::escaped_text(s).len() ==> (#[trigger] json::escaped_text(s)[i])
                > '\u{1f}',
    decreases s.len(),
{
    let q = json::json_quoted(s);
    assert(q.subrange(1, q.len() - 1) =~= json::escaped_text(s));
    if s.len() > 0 {
        let init = s.drop_last();
        lemma_text_quoted(init);
        let (p, e) = (json::escaped_text(init), json::escaped(s.last()));
        lemma_escaped_chars(s.last());
        assert forall|i: int| 0 <= i < json::escaped_text(s).len() implies (
        #[trigger] json::escaped_text(s)[i]) > '\u{1f}' by {
            if i < p.len() {
                assert(json::escaped_text(s)[i] == p[i]);
            } else {
                assert(json::escaped_text(s)[i] == e[i - p.len()]);
            }
        }
    }
}

// ── Where a written value ends ──────────────────────────────────────────────────

/// Does one text stand in the other at the position?
pub open spec fn stands_at(whole: Seq<char>, i: int, part: Seq<char>) -> bool {
    &&& 0 <= i
    &&& i + part.len() <= whole.len()
    &&& forall|k: int| 0 <= k < part.len() ==> whole[i + k] == #[trigger] part[k]
}

proof fn lemma_split(whole: Seq<char>, i: int, a: Seq<char>, b: Seq<char>)
    requires
        stands_at(whole, i, a + b),
    ensures
        stands_at(whole, i, a),
        stands_at(whole, i + a.len(), b),
{
    let c = a + b;
    assert forall|k: int| 0 <= k < a.len() implies whole[i + k] == #[trigger] a[k] by {
        assert(c[k] == a[k]);
    }
    assert forall|k: int| 0 <= k < b.len() implies whole[i + a.len() + k] == #[trigger] b[k] by {
        assert(c[a.len() + k] == b[k]);
        assert(whole[i + (a.len() + k)] == c[a.len() + k]);
    }
}

proof fn lemma_scan_escaped(
    whole: Seq<char>,
    i: int,
    c: char,
    open_char: char,
    close_char: char,
    depth: int,
)
    requires
        stands_at(whole, i, json::escaped(c)),
    ensures
        json::balanced_end(whole, i, open_char, close_char, depth, true, false)
            == json::balanced_end(
            whole,
            i + json::escaped(c).len(),
            open_char,
            close_char,
            depth,
            true,
            false,
        ),
{
    let e = json::escaped(c);
    if c <= '\u{1f}' {
        lemma_hex(c as nat / 16);
        lemma_hex(c as nat % 16);
    }
    assert(whole[i + 0] == e[0]);
    if e.len() > 1 {
        assert(whole[i + 1] == e[1]);
    }
    if e.len() > 2 {
        assert(whole[i + 2] == e[2] && whole[i + 3] == e[3]);
        assert(whole[i + 4] == e[4] && whole[i + 5] == e[5]);
        reveal_with_fuel(json::balanced_end, 7);
    } else {
        reveal_with_fuel(json::balanced_end, 3);
    }
}

proof fn lemma_scan_text(
    whole: Seq<char>,
    i: int,
    s: Seq<char>,
    open_char: char,
    close_char: char,
    depth: int,
)
    requires
        stands_at(whole, i, json::escaped_text(s)),
    ensures
        json::balanced_end(whole, i, open_char, close_char, depth, true, false)
            == json::balanced_end(
            whole,
            i + json::escaped_text(s).len(),
            open_char,
            close_char,
            depth,
            true,
            false,
        ),
    decreases s.len(),
{
    if s.len() > 0 {
        let (p, e) = (json::escaped_text(s.drop_last()), json::escaped(s.last()));
        lemma_split(whole, i, p, e);
        lemma_scan_text(whole, i, s.drop_last(), open_char, close_char, depth);
        lemma_scan_escaped(whole, i + p.len(), s.last(), open_char, close_char, depth);
    }
}

proof fn lemma_scan_quoted(
    whole: Seq<char>,
    i: int,
    s: Seq<char>,
    open_char: char,
    close_char: char,
    depth: int,
)
    requires
        stands_at(whole, i, json::json_quoted(s)),
    ensures
        json::balanced_end(whole, i, open_char, close_char, depth, false, false)
            == json::balanced_end(
            whole,
            i + json::json_quoted(s).len(),
            open_char,
            close_char,
            depth,
            false,
            false,
        ),
{
    let e = json::escaped_text(s);
    lemma_split(whole, i, seq!['"'] + e, seq!['"']);
    lemma_split(whole, i, seq!['"'], e);
    assert(whole[i + 0] == seq!['"'][0]);
    assert(whole[i + 1 + e.len() + 0] == seq!['"'][0]);
    lemma_scan_text(whole, i + 1, s, open_char, close_char, depth);
}

/// Is the text free of quotes and brackets?
pub open spec fn plain(s: Seq<char>) -> bool {
    forall|k: int|
        #![trigger s[k]]
        0 <= k < s.len() ==> s[k] != '"' && s[k] != '{' && s[k] != '}' && s[k] != '[' && s[k]
            != ']'
}

proof fn lemma_scan_plain(
    whole: Seq<char>,
    i: int,
    s: Seq<char>,
    open_char: char,
    close_char: char,
    depth: int,
)
    requires
        stands_at(whole, i, s),
        plain(s),
        (open_char == '{' && close_char == '}') || (open_char == '[' && close_char == ']'),
    ensures
        json::balanced_end(whole, i, open_char, close_char, depth, false, false)
            == json::balanced_end(
            whole,
            i + s.len(),
            open_char,
            close_char,
            depth,
            false,
            false,
        ),
    decreases s.len(),
{
    if s.len() > 0 {
        let rest = s.drop_first();
        assert(s =~= seq![s[0]] + rest);
        lemma_split(whole, i, seq![s[0]], rest);
        assert(whole[i + 0] == s[0]);
        assert forall|k: int| #![trigger rest[k]] 0 <= k < rest.len() implies rest[k] != '"'
            && rest[k] != '{' && rest[k] != '}' && rest[k] != '[' && rest[k] != ']' by {
            assert(rest[k] == s[k + 1]);
        }
        lemma_scan_plain(whole, i + 1, rest, open_char, close_char, depth);
    }
}

/// Are the numbers in the value free of quotes and brackets?
pub open spec fn plain_numbers(j: JsonV) -> bool
    decreases j,
{
    match j {
        JsonV::Number(n) => plain(n),
        JsonV::List(items) => plain_items(items),
        JsonV::Object(members) => plain_members(members),
        _ => true,
    }
}

/// Are the numbers in the items free of quotes and brackets?
pub open spec fn plain_items(items: Seq<JsonV>) -> bool
    decreases items,
{
    items.len() == 0 || (plain_items(items.drop_last()) && plain_numbers(items.last()))
}

/// Are the numbers in the members free of quotes and brackets?
pub open spec fn plain_members(members: Seq<(Seq<char>, JsonV)>) -> bool
    decreases members,
{
    members.len() == 0 || (plain_members(members.drop_last()) && plain_numbers(members.last().1))
}

/// Is that a pair of brackets?
pub open spec fn pair(open_char: char, close_char: char) -> bool {
    (open_char == '{' && close_char == '}') || (open_char == '[' && close_char == ']')
}

proof fn lemma_scan_written(
    whole: Seq<char>,
    i: int,
    j: JsonV,
    open_char: char,
    close_char: char,
    depth: int,
)
    requires
        stands_at(whole, i, json::written(j)),
        plain_numbers(j),
        pair(open_char, close_char),
        depth >= 1,
    ensures
        json::balanced_end(whole, i, open_char, close_char, depth, false, false)
            == json::balanced_end(
            whole,
            i + json::written(j).len(),
            open_char,
            close_char,
            depth,
            false,
            false,
        ),
    decreases j, 0nat,
{
    reveal_strlit("null");
    reveal_strlit("true");
    reveal_strlit("false");
    reveal_strlit("[");
    reveal_strlit("]");
    reveal_strlit("{");
    reveal_strlit("}");
    match j {
        JsonV::Null => {
            lemma_scan_plain(whole, i, "null"@, open_char, close_char, depth);
        },
        JsonV::Bool(b) => {
            if b {
                lemma_scan_plain(whole, i, "true"@, open_char, close_char, depth);
            } else {
                lemma_scan_plain(whole, i, "false"@, open_char, close_char, depth);
            }
        },
        JsonV::Number(n) => {
            lemma_scan_plain(whole, i, n, open_char, close_char, depth);
        },
        JsonV::Text(s) => {
            lemma_scan_quoted(whole, i, s, open_char, close_char, depth);
        },
        JsonV::List(items) => {
            let inner = json::written_items(items);
            lemma_split(whole, i, "["@ + inner, "]"@);
            lemma_split(whole, i, "["@, inner);
            assert(whole[i + 0] == "["@[0]);
            assert(whole[i + 1 + inner.len() + 0] == "]"@[0]);
            let d = if open_char == '[' {
                depth + 1
            } else {
                depth
            };
            lemma_scan_items(whole, i + 1, items, open_char, close_char, d);
        },
        JsonV::Object(members) => {
            let inner = json::written_members(members);
            lemma_split(whole, i, "{"@ + inner, "}"@);
            lemma_split(whole, i, "{"@, inner);
            assert(whole[i + 0] == "{"@[0]);
            assert(whole[i + 1 + inner.len() + 0] == "}"@[0]);
            let d = if open_char == '{' {
                depth + 1
            } else {
                depth
            };
            lemma_scan_members(whole, i + 1, members, open_char, close_char, d);
        },
    }
}

proof fn lemma_scan_items(
    whole: Seq<char>,
    i: int,
    items: Seq<JsonV>,
    open_char: char,
    close_char: char,
    depth: int,
)
    requires
        stands_at(whole, i, json::written_items(items)),
        plain_items(items),
        pair(open_char, close_char),
        depth >= 1,
    ensures
        json::balanced_end(whole, i, open_char, close_char, depth, false, false)
            == json::balanced_end(
            whole,
            i + json::written_items(items).len(),
            open_char,
            close_char,
            depth,
            false,
            false,
        ),
    decreases items, 1nat,
{
    reveal_strlit(",");
    if items.len() == 1 {
        lemma_scan_written(whole, i, items.last(), open_char, close_char, depth);
    } else if items.len() > 1 {
        let front = json::written_items(items.drop_last());
        let last = json::written(items.last());
        lemma_split(whole, i, front + ","@, last);
        lemma_split(whole, i, front, ","@);
        lemma_scan_items(whole, i, items.drop_last(), open_char, close_char, depth);
        lemma_scan_plain(whole, i + front.len(), ","@, open_char, close_char, depth);
        lemma_scan_written(
            whole,
            i + front.len() + 1,
            items.last(),
            open_char,
            close_char,
            depth,
        );
    }
}

proof fn lemma_scan_members(
    whole: Seq<char>,
    i: int,
    members: Seq<(Seq<char>, JsonV)>,
    open_char: char,
    close_char: char,
    depth: int,
)
    requires
        stands_at(whole, i, json::written_members(members)),
        plain_members(members),
        pair(open_char, close_char),
        depth >= 1,
    ensures
        json::balanced_end(whole, i, open_char, close_char, depth, false, false)
            == json::balanced_end(
            whole,
            i + json::written_members(members).len(),
            open_char,
            close_char,
            depth,
            false,
            false,
        ),
    decreases members, 1nat,
{
    reveal_strlit(",");
    reveal_strlit(":");
    if members.len() > 0 {
        let (name, value) = members.last();
        let head = json::json_quoted(name) + ":"@;
        let last = head + json::written(value);
        let front = if members.len() == 1 {
            Seq::empty()
        } else {
            json::written_members(members.drop_last()) + ","@
        };
        if members.len() > 1 {
            lemma_split(whole, i, front, last);
            lemma_split(whole, i, json::written_members(members.drop_last()), ","@);
            lemma_scan_members(whole, i, members.drop_last(), open_char, close_char, depth);
            lemma_scan_plain(
                whole,
                i + json::written_members(members.drop_last()).len(),
                ","@,
                open_char,
                close_char,
                depth,
            );
        }
        let at = i + front.len();
        lemma_split(whole, at, head, json::written(value));
        lemma_split(whole, at, json::json_quoted(name), ":"@);
        lemma_scan_quoted(whole, at, name, open_char, close_char, depth);
        lemma_scan_plain(
            whole,
            at + json::json_quoted(name).len(),
            ":"@,
            open_char,
            close_char,
            depth,
        );
        lemma_scan_written(whole, at + head.len(), value, open_char, close_char, depth);
    }
}

/// A written list or object is told from what follows it: whatever texts it holds, its end
/// is found where it ends.
pub proof fn lemma_written_end(j: JsonV, rest: Seq<char>)
    requires
        j is List || j is Object,
        plain_numbers(j),
    ensures
        json::candidate_end(json::written(j) + rest, 0) == Some(json::written(j).len() - 1),
{
    let whole = json::written(j) + rest;
    reveal_strlit("[");
    reveal_strlit("]");
    reveal_strlit("{");
    reveal_strlit("}");
    let w = json::written(j);
    assert(stands_at(whole, 0, w)) by {
        assert forall|k: int| 0 <= k < w.len() implies whole[0 + k] == #[trigger] w[k] by {}
    }
    match j {
        JsonV::List(items) => {
            let inner = json::written_items(items);
            lemma_split(whole, 0, "["@ + inner, "]"@);
            lemma_split(whole, 0, "["@, inner);
            assert(whole[0] == "["@[0]);
            assert(whole[1 + inner.len() as int] == "]"@[0]);
            lemma_scan_items(whole, 1, items, '[', ']', 1);
        },
        JsonV::Object(members) => {
            let inner = json::written_members(members);
            lemma_split(whole, 0, "{"@ + inner, "}"@);
            lemma_split(whole, 0, "{"@, inner);
            assert(whole[0] == "{"@[0]);
            assert(whole[1 + inner.len() as int] == "}"@[0]);
            lemma_scan_members(whole, 1, members, '{', '}', 1);
        },
        _ => {},
    }
}

/// Lists and objects are written one item after the other, with commas between.
pub proof fn lemma_written_together(
    a: Seq<JsonV>,
    b: Seq<JsonV>,
    m: Seq<(Seq<char>, JsonV)>,
    n: Seq<(Seq<char>, JsonV)>,
)
    ensures
        a.len() > 0 && b.len() > 0 ==> json::written_items(a + b) == json::written_items(a)
            + ","@ + json::written_items(b),
        m.len() > 0 && n.len() > 0 ==> json::written_members(m + n) == json::written_members(m)
            + ","@ + json::written_members(n),
    decreases b.len() + n.len(),
{
    if a.len() > 0 && b.len() > 0 {
        let init = b.drop_last();
        assert((a + b).drop_last() =~= a + init);
        assert((a + b).last() == b.last());
        if init.len() == 0 {
            assert(a + init =~= a);
        } else {
            lemma_written_together(a, init, Seq::empty(), Seq::empty());
            assert(json::written_items(a) + ","@ + json::written_items(init) + ","@
                + json::written(b.last()) =~= json::written_items(a) + ","@ + (json::written_items(
                init,
            ) + ","@ + json::written(b.last())));
        }
    }
    if m.len() > 0 && n.len() > 0 {
        let init = n.drop_last();
        assert((m + n).drop_last() =~= m + init);
        assert((m + n).last() == n.last());
        let last = json::json_quoted(n.last().0) + ":"@ + json::written(n.last().1);
        if init.len() == 0 {
            assert(m + init =~= m);
        } else {
            lemma_written_together(Seq::empty(), Seq::empty(), m, init);
            assert(json::written_members(m) + ","@ + json::written_members(init) + ","@ + last
                =~= json::written_members(m) + ","@ + (json::written_members(init) + ","@ + last));
        }
    }
}

} // verus!
