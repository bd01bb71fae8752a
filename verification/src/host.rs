//! The sidecar's one line back into Core.
//!
//! Formalizing prose is a language task, so the two edges of the pipeline need a
//! model. The sidecar does not hold provider keys and must not egress on its own;
//! instead it calls Core's generic sidecar callback:
//!
//! ```text
//! POST http://127.0.0.1:$RYU_CORE_PORT/api/host/model/complete
//!   authorization: Bearer $RYU_EXT_TOKEN
//!   x-ryu-plugin-id: $RYU_EXT_PLUGIN_ID
//!   { "prompt": …, "system": …, "model_pref_key": … }
//! ```
//!
//! This module decides where that line goes and reads what comes back over it; the call
//! itself is the caller's.

use vstd::prelude::*;

use crate::json;
use crate::json::{place_of, Json, JsonV};
use crate::reading;
use crate::text;
use crate::text::{blank, cat2, cat4, chars_of, natural};

pub use crate::json::extract_json;

verus! {

/// Where the callback goes, and as whom.
#[derive(Debug)]
pub struct Settings {
    pub base: String,
    pub plugin_id: String,
    pub token: String,
}

/// The number that digits write, if every character is one.
pub open spec fn number(s: Seq<char>) -> Option<nat>
    decreases s.len(),
{
    if s.len() == 0 {
        Some(0)
    } else {
        match number(s.drop_last()) {
            Some(n) => if '0' <= s.last() <= '9' {
                Some((n * 10 + (s.last() as nat - '0' as nat)) as nat)
            } else {
                None
            },
            None => None,
        }
    }
}

/// The port that a text names: digits, a plus sign before them or not, of a number of
/// 16 bits.
pub open spec fn port_of(s: Seq<char>) -> Option<nat> {
    let digits = if s.len() > 0 && s[0] == '+' {
        s.drop_first()
    } else {
        s
    };
    if digits.len() == 0 {
        None
    } else {
        match number(digits) {
            Some(n) => if n <= 65535 {
                Some(n)
            } else {
                None
            },
            None => None,
        }
    }
}

/// The address of a port of this machine.
pub open spec fn base_of(port: nat) -> Seq<char> {
    "http://127.0.0.1:"@ + text::digits(port)
}

/// A number above a bound stays above it, whatever digits follow.
proof fn lemma_number_grows(s: Seq<char>, i: int, bound: nat)
    requires
        0 <= i <= s.len(),
        number(s.take(i)) is None || number(s.take(i))->0 > bound,
    ensures
        number(s) is None || number(s)->0 > bound,
    decreases s.len() - i,
{
    if i < s.len() {
        assert(s.take(i + 1).drop_last() =~= s.take(i));
        lemma_number_grows(s, i + 1, bound);
    } else {
        assert(s.take(i) =~= s);
    }
}

/// Read a port.
pub fn parse_port(s: &str) -> (r: Option<u16>)
    ensures
        match r {
            Some(p) => port_of(s@) == Some(p as nat),
            None => port_of(s@) is None,
        },
{
    let chars = chars_of(s);
    let n = chars.len();
    let start: usize = if n > 0 && chars[0] == '+' {
        1
    } else {
        0
    };
    if start == n {
        return None;
    }
    let ghost digits = if s@.len() > 0 && s@[0] == '+' {
        s@.drop_first()
    } else {
        s@
    };
    let mut value: u32 = 0;
    let mut i: usize = start;
    assert(digits.take(0) =~= Seq::empty());
    while i < n
        invariant
            start <= i <= n,
            start <= 1,
            n == chars@.len(),
            digits.len() == n - start,
            forall|k: int| 0 <= k < digits.len() ==> #[trigger] digits[k] == chars@[k + start],
            number(digits.take(i - start)) == Some(value as nat),
            value <= 65535,
            port_of(s@) == match number(digits) {
                Some(v) => if v <= 65535 {
                    Some(v)
                } else {
                    None
                },
                None => None,
            },
        decreases n - i,
    {
        let c = chars[i];
        proof {
            let k = i - start;
            assert(digits.take(k + 1).drop_last() =~= digits.take(k));
            assert(digits.take(k + 1).last() == digits[k]);
            assert(digits[k] == c);
        }
        if c < '0' || c > '9' {
            proof {
                lemma_number_grows(digits, i - start + 1, 65535);
            }
            return None;
        }
        value = value * 10 + (c as u32 - '0' as u32);
        if value > 65535 {
            proof {
                lemma_number_grows(digits, i - start + 1, 65535);
            }
            return None;
        }
        i += 1;
    }
    assert(digits.take(i - start) =~= digits);
    Some(value as u16)
}

/// Is there a text that is not empty?
pub open spec fn given(t: Option<String>) -> bool {
    t is Some && t->0@.len() > 0
}

/// The settings from the environment that Core injects at spawn: the token, the plugin's
/// id and Core's port. `None` when the process was not spawned by Core — the solver-only
/// routes still work, the model-backed ones report that they are unavailable rather than
/// pretending.
pub fn settings(
    token: Option<String>,
    plugin_id: Option<String>,
    port: Option<String>,
) -> (r: Option<Settings>)
    ensures
        r is Some <==> given(token) && given(plugin_id) && port is Some && port_of(
            port->0@,
        ) is Some,
        r matches Some(s) ==> {
            &&& s.token@ == token->0@
            &&& s.plugin_id@ == plugin_id->0@
            &&& s.base@ == base_of(port_of(port->0@)->0)
        },
{
    let (Some(token), Some(plugin_id), Some(port)) = (token, plugin_id, port) else {
        return None;
    };
    if token.as_str().unicode_len() == 0 || plugin_id.as_str().unicode_len() == 0 {
        return None;
    }
    match parse_port(port.as_str()) {
        Some(p) => {
            let number = natural(p as u128);
            Some(Settings { base: cat2("http://127.0.0.1:", number.as_str()), plugin_id, token })
        },
        None => None,
    }
}

// ── Reading the reply ───────────────────────────────────────────────────────────

/// Where the text of an object stands: under `text`, else `content`, else `output`.
pub open spec fn text_place(members: Seq<(Seq<char>, JsonV)>) -> int {
    let t = json::place_from(members, "text"@, 0);
    let c = json::place_from(members, "content"@, 0);
    if t < members.len() {
        t
    } else if c < members.len() {
        c
    } else {
        json::place_from(members, "output"@, 0)
    }
}

/// The text of a result.
pub open spec fn rendered(value: JsonV) -> Seq<char>
    decreases value,
{
    match value {
        JsonV::Text(s) => s,
        JsonV::Object(members) => {
            let i = text_place(members);
            if 0 <= i < members.len() {
                rendered(members[i].1)
            } else {
                Seq::empty()
            }
        },
        JsonV::List(items) => rendered_all(items),
        _ => Seq::empty(),
    }
}

/// The texts of results, one after the other.
pub open spec fn rendered_all(items: Seq<JsonV>) -> Seq<char>
    decreases items,
{
    if items.len() == 0 {
        Seq::empty()
    } else {
        rendered_all(items.drop_last()) + rendered(items.last())
    }
}

/// The bridge returns either a bare string or a `{ text }`-shaped object depending on
/// the provider; accept both rather than depending on one provider's shape.
pub fn render_result(value: &Json) -> (r: String)
    ensures
        r@ == rendered(value@),
    decreases value,
{
    proof {
        reveal_strlit("");
        assert(""@ =~= Seq::empty());
    }
    match value {
        Json::Text(s) => s.clone(),
        Json::Object(members) => {
            proof {
                json::lemma_object_view(*members);
            }
            let n = members.len();
            let mut i = place_of(members, "text");
            if i == n {
                i = place_of(members, "content");
            }
            if i == n {
                i = place_of(members, "output");
            }
            if i < n {
                render_result(&members[i].1)
            } else {
                "".to_owned()
            }
        },
        Json::List(items) => {
            let ghost all = json::item_views(items@);
            proof {
                json::lemma_list_view(*items);
            }
            let mut out = "".to_owned();
            let mut i: usize = 0;
            while i < items.len()
                invariant
                    i <= items@.len(),
                    all == json::item_views(items@),
                    *value matches Json::List(v) && v == items,
                    out@ == rendered_all(all.take(i as int)),
                decreases items@.len() - i,
            {
                proof {
                    assert(all.take(i + 1).drop_last() =~= all.take(i as int));
                    assert(all.take(i + 1).last() == all[i as int]);
                }
                let part = render_result(&items[i]);
                out = cat2(out.as_str(), part.as_str());
                i += 1;
            }
            assert(all.take(i as int) =~= all);
            out
        },
        _ => "".to_owned(),
    }
}

/// The reply to a completion that was refused.
pub open spec fn refusal(status: Seq<char>, body: JsonV) -> Seq<char> {
    let message = match json::text_member(body, "error"@) {
        Some(m) => m,
        None => "host model callback failed"@,
    };
    message + " (HTTP "@ + status + ")"@
}

/// The text of the result that a reply holds.
pub open spec fn result_text(body: JsonV) -> Seq<char> {
    match json::member(body, "result"@) {
        Some(v) => rendered(v),
        None => Seq::empty(),
    }
}

/// The completion in a reply of the callback, by its status and its body. A refused call
/// and an empty completion are errors rather than silent empty answers.
pub fn completion(success: bool, status: &str, body: &Json) -> (r: Result<String, String>)
    ensures
        match r {
            Ok(t) => {
                &&& success
                &&& t@ == result_text(body@)
                &&& text::trimmed(t@).len() > 0
            },
            Err(e) => if success {
                &&& text::trimmed(result_text(body@)).len() == 0
                &&& e@ == "the model returned an empty completion"@
            } else {
                e@ == refusal(status@, body@)
            },
        },
{
    if !success {
        let message = match body.text("error") {
            Some(m) => m.clone(),
            None => "host model callback failed".to_owned(),
        };
        return Err(cat4(message.as_str(), " (HTTP ", status, ")"));
    }
    let result = match body.get("result") {
        Some(v) => render_result(v),
        None => "".to_owned(),
    };
    proof {
        reveal_strlit("");
        assert(""@ =~= Seq::empty());
    }
    if blank(result.as_str()) {
        return Err("the model returned an empty completion".to_owned());
    }
    Ok(result)
}

proof fn lemma_number(s: Seq<char>)
    ensures
        number(s) is Some <==> forall|i: int| 0 <= i < s.len() ==> '0' <= #[trigger] s[i] <= '9',
        number(s) matches Some(n) ==> n == reading::natural_of(s),
    decreases s.len(),
{
    if s.len() > 0 {
        let init = s.drop_last();
        lemma_number(init);
        if number(init) is Some {
            assert forall|i: int| 0 <= i < s.len() - 1 implies '0' <= #[trigger] s[i] <= '9' by {
                assert(init[i] == s[i]);
            }
            if number(s) is Some {
                assert forall|i: int| 0 <= i < s.len() implies '0' <= #[trigger] s[i] <= '9' by {
                    if i == s.len() - 1 {
                        assert(s[i] == s.last());
                    }
                }
            } else {
                assert(!('0' <= s[s.len() - 1] <= '9'));
            }
        } else {
            let i = choose|i: int| 0 <= i < init.len() && !('0' <= #[trigger] init[i] <= '9');
            assert(s[i] == init[i]);
        }
    }
}

/// A port is read from decimal digits, as the number that they denote, unless it has more
/// than 16 bits; a plus sign before them changes nothing; and nothing else names a port.
pub proof fn lemma_port(s: Seq<char>)
    ensures
        (s.len() > 0 && forall|i: int| 0 <= i < s.len() ==> '0' <= #[trigger] s[i] <= '9')
            ==> port_of(s) == if reading::natural_of(s) < 0x10000 {
            Some(reading::natural_of(s) as nat)
        } else {
            None
        },
        s.len() > 0 && '0' <= s[0] <= '9' ==> port_of(seq!['+'] + s) == port_of(s),
        port_of(s) is Some ==> forall|i: int|
            0 < i < s.len() ==> '0' <= #[trigger] s[i] <= '9',
        port_of(s) is Some ==> s.len() > 0 && (s[0] == '+' && s.len() > 1 || '0' <= s[0] <= '9'),
{
    lemma_number(s);
    let t = seq!['+'] + s;
    assert(t.drop_first() =~= s);
    if s.len() > 0 {
        let d = s.drop_first();
        lemma_number(d);
        if s[0] == '+' && port_of(s) is Some {
            assert forall|i: int| 0 < i < s.len() implies '0' <= #[trigger] s[i] <= '9' by {
                assert(d[i - 1] == s[i]);
            }
        }
    }
}

/// Every port is read back from its digits.
pub proof fn lemma_port_written(n: nat)
    requires
        n < 0x10000,
    ensures
        port_of(text::digits(n)) == Some(n),
{
    reading::lemma_digits(n);
    let s = text::digits(n);
    assert forall|i: int| 0 <= i < s.len() implies '0' <= #[trigger] s[i] <= '9' by {}
    lemma_port(s);
}

/// A result is shown as the text that it is, or as what the member `text` of an object
/// holds, or, where there is none, the member `content`, or else the member `output`.
pub proof fn lemma_rendered_object(value: JsonV, s: Seq<char>)
    ensures
        rendered(JsonV::Text(s)) == s,
        value is Object ==> rendered(value) == match (
            json::member(value, "text"@),
            json::member(value, "content"@),
            json::member(value, "output"@),
        ) {
            (Some(v), _, _) => rendered(v),
            (None, Some(v), _) => rendered(v),
            (None, None, Some(v)) => rendered(v),
            _ => Seq::empty(),
        },
        value is Null || value is Bool || value is Number ==> rendered(value).len() == 0,
{
    if let JsonV::Object(members) = value {
        json::lemma_place_from(members, "text"@, 0);
        json::lemma_place_from(members, "content"@, 0);
        json::lemma_place_from(members, "output"@, 0);
    }
}

/// A list of results is shown as what each of them is shown as, one behind the other.
pub proof fn lemma_rendered_list(a: Seq<JsonV>, b: Seq<JsonV>, x: JsonV)
    ensures
        rendered(JsonV::List(seq![x])) == rendered(x),
        rendered(JsonV::List(a + b)) == rendered(JsonV::List(a)) + rendered(JsonV::List(b)),
    decreases b.len(),
{
    reveal_with_fuel(rendered, 2);
    reveal_with_fuel(rendered_all, 2);
    let one = seq![x];
    assert(one.drop_last() =~= Seq::empty());
    assert(rendered_all(one.drop_last()) =~= Seq::<char>::empty());
    assert(rendered_all(one) =~= rendered(x));
    if b.len() == 0 {
        assert(a + b =~= a);
        assert(rendered_all(b) =~= Seq::<char>::empty());
        assert(rendered_all(a) + rendered_all(b) =~= rendered_all(a));
    } else {
        lemma_rendered_list(a, b.drop_last(), x);
        assert((a + b).drop_last() =~= a + b.drop_last());
        assert(rendered_all(a) + rendered_all(b.drop_last()) + rendered(b.last())
            =~= rendered_all(a) + (rendered_all(b.drop_last()) + rendered(b.last())));
    }
}

} // verus!
