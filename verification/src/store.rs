//! Rules of the on-disk persistence: one JSON file per policy.
//!
//! JSON rather than a database because a policy is a document an author reviews,
//! diffs, and occasionally copies between nodes — the same reasons a skill or an
//! agent preset is a file. There is no query surface to speak of (list, get, save,
//! delete) and policies number in the dozens, so an index would cost more than it
//! saves.
//!
//! This module decides which file a policy lives in, what a save stamps on it and in
//! which order a listing shows the policies. Reading and writing is the caller's.

use vstd::prelude::*;
use vstd::utf8::encode_utf8;

use crate::policy::Policy;
use crate::text;
use crate::text::{cat2, chars_of, text_rank, Rank};

verus! {

// ── Ids ─────────────────────────────────────────────────────────────────────────

/// A letter or a digit of ASCII.
pub open spec fn alphanumeric(c: char) -> bool {
    ('a' <= c <= 'z') || ('A' <= c <= 'Z') || ('0' <= c <= '9')
}

/// Is the character a letter or a digit of ASCII?
pub fn is_alphanumeric(c: char) -> (b: bool)
    ensures
        b == alphanumeric(c),
{
    ('a' <= c && c <= 'z') || ('A' <= c && c <= 'Z') || ('0' <= c && c <= '9')
}

/// A character that may stand in an id.
pub open spec fn id_char(c: char) -> bool {
    alphanumeric(c) || c == '-' || c == '_'
}

/// Does an id have a length that is accepted?
pub open spec fn id_fits(id: Seq<char>) -> bool {
    1 <= encode_utf8(id).len() <= 64
}

/// Is that an id?
pub open spec fn valid_id(id: Seq<char>) -> bool {
    id_fits(id) && forall|i: int| 0 <= i < id.len() ==> id_char(#[trigger] id[i])
}

/// The file of a policy.
pub open spec fn file_of(id: Seq<char>) -> Seq<char> {
    id + ".json"@
}

/// The name of the file that a policy lives in.
///
/// Policy ids come in over HTTP and become path segments, so they are restricted
/// to a charset with no separators and no dots — `..` cannot be spelled, and
/// neither can an absolute path.
pub fn file_name(id: &str) -> (r: Result<String, String>)
    ensures
        match r {
            Ok(name) => valid_id(id@) && name@ == file_of(id@),
            Err(e) => {
                &&& !valid_id(id@)
                &&& e@ == if id_fits(id@) {
                    "policy id may only contain letters, digits, '-' and '_'"@
                } else {
                    "policy id must be 1–64 characters"@
                }
            },
        },
{
    let n: usize = id.as_bytes().len();
    if n == 0 || n > 64 {
        return Err("policy id must be 1–64 characters".to_owned());
    }
    let chars = chars_of(id);
    let mut i: usize = 0;
    while i < chars.len()
        invariant
            i <= chars@.len(),
            chars@ == id@,
            id_fits(id@),
            forall|k: int| 0 <= k < i ==> id_char(#[trigger] id@[k]),
        decreases chars@.len() - i,
    {
        let c = chars[i];
        if !(is_alphanumeric(c) || c == '-' || c == '_') {
            assert(!id_char(id@[i as int]));
            return Err("policy id may only contain letters, digits, '-' and '_'".to_owned());
        }
        i += 1;
    }
    Ok(cat2(id, ".json"))
}

/// An id cannot leave the directory: the file it names holds no separator, and its only
/// dot is the one before the extension.
pub proof fn lemma_file_stays(id: Seq<char>, i: int)
    requires
        valid_id(id),
        0 <= i < file_of(id).len(),
    ensures
        file_of(id)[i] != '/',
        file_of(id)[i] != '\\',
        file_of(id)[i] == '.' <==> i == id.len(),
{
    reveal_strlit(".json");
    if i < id.len() {
        assert(file_of(id)[i] == id[i]);
    }
}

/// Two policies share a file only where they share an id.
pub proof fn lemma_file_distinct(a: Seq<char>, b: Seq<char>)
    requires
        file_of(a) == file_of(b),
    ensures
        a == b,
{
    assert(file_of(a).len() == a.len() + ".json"@.len());
    assert(file_of(b).len() == b.len() + ".json"@.len());
    assert forall|i: int| 0 <= i < a.len() implies a[i] == b[i] by {
        assert(file_of(a)[i] == a[i]);
        assert(file_of(b)[i] == b[i]);
    }
    assert(a =~= b);
}

// ── Saving ──────────────────────────────────────────────────────────────────────

/// The version of a policy once it is saved: one more than that of the policy it
/// replaces, and at least one.
pub open spec fn next_version(own: u32, existing: Option<u32>) -> u32 {
    match existing {
        Some(v) => if v == u32::MAX {
            v
        } else {
            (v + 1) as u32
        },
        None => if own == 0 {
            1
        } else {
            own
        },
    }
}

/// When a policy was created, once it is saved.
pub open spec fn creation(existing: Option<Seq<char>>, now: Seq<char>) -> Seq<char> {
    match existing {
        Some(t) => t,
        None => now,
    }
}

/// The version that a saved policy replaces.
pub open spec fn replaced_version(existing: Option<&Policy>) -> Option<u32> {
    match existing {
        Some(p) => Some(p.version),
        None => None,
    }
}

/// When the policy that is replaced was created.
pub open spec fn replaced_creation(existing: Option<&Policy>) -> Option<Seq<char>> {
    match existing {
        Some(p) => Some(p.created_at@),
        None => None,
    }
}

/// The policy as it is saved: `version` bumped and `updated_at` stamped. The creation
/// stamp survives an edit.
pub fn stamp(policy: Policy, existing: Option<&Policy>, now: &str) -> (r: Policy)
    ensures
        r.id == policy.id,
        r.name == policy.name,
        r.description == policy.description,
        r.variables == policy.variables,
        r.rules == policy.rules,
        r.tests == policy.tests,
        r.source_document == policy.source_document,
        r.version == next_version(policy.version, replaced_version(existing)),
        r.created_at@ == creation(replaced_creation(existing), now@),
        r.updated_at@ == now@,
{
    let mut out = policy;
    match existing {
        Some(old_policy) => {
            if old_policy.version < u32::MAX {
                out.version = old_policy.version + 1;
            } else {
                out.version = u32::MAX;
            }
            out.created_at = old_policy.created_at.clone();
        },
        None => {
            if out.version == 0 {
                out.version = 1;
            }
            out.created_at = now.to_owned();
        },
    }
    out.updated_at = now.to_owned();
    out
}

/// Saving twice: the second save has the next version, whatever the policy sent says, and
/// the creation stamp of the first.
pub proof fn lemma_saved_twice(own: u32, again: u32, first: Seq<char>, second: Seq<char>)
    requires
        own < u32::MAX,
    ensures
        next_version(again, Some(next_version(own, None))) == next_version(own, None) + 1,
        creation(Some(creation(None, first)), second) == first,
{
}

/// A saved policy has a version, and a save never lowers it.
pub proof fn lemma_version_grows(own: u32, existing: Option<u32>)
    requires
        existing matches Some(v) ==> v >= 1,
    ensures
        next_version(own, existing) >= 1,
        existing matches Some(v) ==> {
            &&& next_version(own, existing) >= v
            &&& v < u32::MAX ==> next_version(own, existing) > v
        },
{
}

// ── Listing ─────────────────────────────────────────────────────────────────────

/// What `str::to_lowercase` makes of a text.
pub uninterp spec fn lowercase(s: Seq<char>) -> Seq<char>;

/// The text in lower case, by `str::to_lowercase`. Claimed is that the outcome depends on
/// the text alone; the case mappings of Unicode are left to the standard library.
#[verifier::external_body]
fn lowercase_text(s: &str) -> (r: String)
    ensures
        r@ == lowercase(s@),
{
    s.to_lowercase()
}

/// What a listing is ordered by.
pub open spec fn sort_key(p: Policy) -> Seq<char> {
    lowercase(p.name@)
}

/// The first place from `i` on whose policy comes after the key, or the end.
pub open spec fn slot_from(s: Seq<Policy>, key: Seq<char>, i: int) -> int
    decreases s.len() - i,
{
    if i < 0 || i >= s.len() {
        s.len() as int
    } else if text::text_less(key, sort_key(s[i])) {
        i
    } else {
        slot_from(s, key, i + 1)
    }
}

/// The policies in the order of their names, ignoring case; those with equal names stay in
/// the order in which they came.
pub open spec fn arranged(s: Seq<Policy>) -> Seq<Policy>
    decreases s.len(),
{
    if s.len() == 0 {
        Seq::empty()
    } else {
        let front = arranged(s.drop_last());
        front.insert(slot_from(front, sort_key(s.last()), 0), s.last())
    }
}

/// The place for a policy in an ordered list.
fn slot(list: &Vec<Policy>, policy: &Policy) -> (r: usize)
    ensures
        r == slot_from(list@, sort_key(*policy), 0),
        r <= list@.len(),
{
    let key = lowercase_text(policy.name.as_str());
    let mut i: usize = 0;
    while i < list.len()
        invariant
            i <= list@.len(),
            key@ == sort_key(*policy),
            slot_from(list@, key@, 0) == slot_from(list@, key@, i as int),
        decreases list@.len() - i,
    {
        let other = lowercase_text(list[i].name.as_str());
        if let Rank::Less = text_rank(key.as_str(), other.as_str()) {
            return i;
        }
        i += 1;
    }
    list.len()
}

/// Order the policies for a listing.
pub fn arrange(policies: Vec<Policy>) -> (r: Vec<Policy>)
    ensures
        r@ == arranged(policies@),
{
    let ghost all = policies@;
    let n = policies.len();
    let mut rest = policies;
    let mut out: Vec<Policy> = Vec::new();
    let mut i: usize = 0;
    assert(all.skip(0) =~= all);
    while i < n
        invariant
            i <= n,
            n == all.len(),
            rest@ == all.skip(i as int),
            out@ == arranged(all.take(i as int)),
        decreases n - i,
    {
        proof {
            assert(all.take(i + 1).drop_last() =~= all.take(i as int));
            assert(all.take(i + 1).last() == all[i as int]);
        }
        let policy = rest.remove(0);
        assert(rest@ =~= all.skip(i + 1));
        let at = slot(&out, &policy);
        out.insert(at, policy);
        i += 1;
    }
    assert(all.take(i as int) =~= all);
    out
}

/// Does no policy come before one that precedes it?
pub open spec fn in_order(s: Seq<Policy>) -> bool {
    forall|i: int, j: int|
        0 <= i < j < s.len() ==> !text::text_less(sort_key(#[trigger] s[j]), sort_key(#[trigger] s[i]))
}

proof fn lemma_slot(s: Seq<Policy>, key: Seq<char>, i: int)
    requires
        0 <= i <= s.len(),
    ensures
        i <= slot_from(s, key, i) <= s.len(),
        slot_from(s, key, i) < s.len() ==> text::text_less(
            key,
            sort_key(s[slot_from(s, key, i)]),
        ),
        forall|k: int|
            i <= k < slot_from(s, key, i) ==> !text::text_less(key, sort_key(#[trigger] s[k])),
    decreases s.len() - i,
{
    if i < s.len() && !text::text_less(key, sort_key(s[i])) {
        lemma_slot(s, key, i + 1);
    }
}

/// A listing is in order, and it shows the policies that there are: each as often as it
/// came, and no other.
pub proof fn lemma_arranged(s: Seq<Policy>)
    ensures
        in_order(arranged(s)),
        arranged(s).to_multiset() == s.to_multiset(),
        arranged(s).len() == s.len(),
    decreases s.len(),
{
    broadcast use vstd::seq_lib::group_to_multiset_ensures;

    if s.len() == 0 {
        assert(s =~= Seq::empty());
    } else {
        let front = arranged(s.drop_last());
        let p = s.last();
        let key = sort_key(p);
        let at = slot_from(front, key, 0);
        lemma_arranged(s.drop_last());
        lemma_slot(front, key, 0);
        let out = front.insert(at, p);
        assert forall|i: int, j: int| 0 <= i < j < out.len() implies !text::text_less(
            sort_key(#[trigger] out[j]),
            sort_key(#[trigger] out[i]),
        ) by {
            let a = if i < at {
                i
            } else {
                i - 1
            };
            let b = if j < at {
                j
            } else {
                j - 1
            };
            if j == at {
                assert(out[i] == front[i]);
            } else if i == at {
                assert(out[j] == front[b]);
                let (x, y) = (sort_key(front[at]), sort_key(front[b]));
                if text::text_less(y, key) {
                    text::lemma_text_transitive(y, key, x);
                    if b == at {
                        text::lemma_text_irreflexive(x);
                    }
                }
            } else {
                assert(out[i] == front[a]);
                assert(out[j] == front[b]);
            }
        }
        assert(out.to_multiset() =~= front.to_multiset().insert(p));
        assert(s =~= s.drop_last().push(p));
        assert(s.to_multiset() =~= s.drop_last().to_multiset().insert(p));
    }
}

/// Listing is stable: it only moves policies, and two whose names are equal when case is
/// ignored stay in the order in which they came.
pub proof fn lemma_arranged_stable(s: Seq<Policy>) -> (at: Seq<int>)
    ensures
        at.len() == s.len(),
        at.no_duplicates(),
        forall|k: int|
            #![trigger at[k]]
            0 <= k < at.len() ==> 0 <= at[k] < s.len() && arranged(s)[k] == s[at[k]],
        forall|i: int, j: int|
            #![trigger at[i], at[j]]
            0 <= i < j < at.len() ==> sort_key(s[at[i]]) == sort_key(s[at[j]]) ==> at[i] < at[j],
    decreases s.len(),
{
    if s.len() == 0 {
        Seq::empty()
    } else {
        let init = s.drop_last();
        let n = init.len() as int;
        let front = arranged(init);
        let key = sort_key(s.last());
        let slot = slot_from(front, key, 0);
        lemma_slot(front, key, 0);
        lemma_arranged(init);
        let rest = lemma_arranged_stable(init);
        let at = rest.insert(slot, n);
        assert forall|k: int| #![trigger at[k]] 0 <= k < at.len() implies 0 <= at[k] < s.len()
            && arranged(s)[k] == s[at[k]] by {
            if k < slot {
                assert(at[k] == rest[k]);
            } else if k > slot {
                assert(at[k] == rest[k - 1]);
                assert(arranged(s)[k] == front[k - 1]);
            }
        }
        assert forall|i: int, j: int| 0 <= i < j < at.len() implies at[i] != at[j] by {
            if i != slot && j != slot {
                let (a, b) = (if i < slot { i } else { i - 1 }, if j < slot { j } else { j - 1 });
                assert(rest[a] != rest[b]);
            } else if i == slot {
                assert(at[j] == rest[j - 1]);
            } else {
                assert(at[i] == rest[i]);
            }
        }
        assert forall|i: int, j: int|
            #![trigger at[i], at[j]]
            0 <= i < j < at.len() && sort_key(s[at[i]]) == sort_key(
                s[at[j]],
            ) implies at[i] < at[j] by {
            if i == slot {
                let x = sort_key(front[j - 1]);
                assert(at[j] == rest[j - 1]);
                assert(front[j - 1] == init[rest[j - 1]]);
                assert(s[at[j]] == front[j - 1]);
                text::lemma_text_irreflexive(key);
                if j - 1 > slot {
                    let y = sort_key(front[slot]);
                    assert(text::text_less(key, y));
                    assert(!text::text_less(x, y));
                }
            } else if j == slot {
                assert(at[i] == rest[i]);
            } else {
                let (a, b) = (if i < slot { i } else { i - 1 }, if j < slot { j } else { j - 1 });
                assert(at[i] == rest[a] && at[j] == rest[b]);
                assert(s[at[i]] == init[rest[a]] && s[at[j]] == init[rest[b]]);
            }
        }
        at
    }
}

/// A policy that is saved for the first time keeps its version, and one without a version
/// gets the first; and one that replaces another follows it by one.
pub proof fn lemma_version_kept(own: u32, replaced: u32)
    ensures
        own >= 1 ==> next_version(own, None) == own,
        next_version(0, None) == 1,
        replaced < u32::MAX ==> next_version(own, Some(replaced)) - replaced == 1,
        next_version(own, Some(u32::MAX)) == u32::MAX,
{
}

/// An id is made of up to 64 letters, digits, dashes and underscores, and of at least one.
pub proof fn lemma_id_shape(id: Seq<char>)
    ensures
        valid_id(id) <==> {
            &&& 1 <= id.len() <= 64
            &&& forall|i: int|
                #![trigger id[i]]
                0 <= i < id.len() ==> ('0' <= id[i] <= '9') || ('A' <= id[i] <= 'Z') || ('a'
                    <= id[i] <= 'z') || id[i] == '-' || id[i] == '_'
        },
{
    if forall|i: int| 0 <= i < id.len() ==> id_char(#[trigger] id[i]) {
        assert(vstd::utf8::is_ascii_chars(id));
        vstd::utf8::is_ascii_chars_encode_utf8(id);
    }
    if forall|i: int|
        #![trigger id[i]]
        0 <= i < id.len() ==> ('0' <= id[i] <= '9') || ('A' <= id[i] <= 'Z') || ('a' <= id[i]
            <= 'z') || id[i] == '-' || id[i] == '_' {
        assert forall|i: int| 0 <= i < id.len() implies id_char(#[trigger] id[i]) by {}
    }
}

} // verus!
