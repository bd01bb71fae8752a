//! A map from names to values, kept in the order of the names.

use vstd::prelude::*;

use crate::text;
use crate::text::{text_rank, Rank};

verus! {

/// An ordered map keyed by name.
///
/// Its view is the sequence of its entries, values by their views. Invariant: the names
/// strictly increase in the order of strings, so no name occurs twice and equal maps have
/// equal views.
#[derive(Debug, PartialEq, Eq)]
pub struct NameMap<V> {
    entries: Vec<(String, V)>,
}

/// Do the names strictly increase?
pub open spec fn ordered<V>(s: Seq<(Seq<char>, V)>) -> bool {
    forall|i: int, j: int| 0 <= i < j < s.len() ==> text::text_less(s[i].0, s[j].0)
}

/// Is there an entry of that name?
pub open spec fn named<V>(s: Seq<(Seq<char>, V)>, name: Seq<char>) -> bool {
    exists|i: int| 0 <= i < s.len() && (#[trigger] s[i]).0 == name
}

/// A position of that name, if there is one.
pub open spec fn place<V>(s: Seq<(Seq<char>, V)>, name: Seq<char>) -> int {
    choose|i: int| 0 <= i < s.len() && (#[trigger] s[i]).0 == name
}

/// The value of that name, if there is one.
pub open spec fn lookup<V>(s: Seq<(Seq<char>, V)>, name: Seq<char>) -> Option<V> {
    if named(s, name) {
        Some(s[place(s, name)].1)
    } else {
        None
    }
}

/// The entries as a mathematical map.
pub open spec fn as_map<V>(s: Seq<(Seq<char>, V)>) -> Map<Seq<char>, V> {
    Map::new(|x: Seq<char>| named(s, x), |x: Seq<char>| lookup(s, x)->0)
}

/// In an ordered sequence a name has one position.
pub proof fn lemma_one_position<V>(s: Seq<(Seq<char>, V)>, i: int, j: int)
    requires
        ordered(s),
        0 <= i < s.len(),
        0 <= j < s.len(),
        s[i].0 == s[j].0,
    ensures
        i == j,
{
    text::lemma_text_irreflexive(s[i].0);
}

/// Looking up the name of an entry finds the value of that entry.
pub proof fn lemma_lookup_at<V>(s: Seq<(Seq<char>, V)>, i: int)
    requires
        ordered(s),
        0 <= i < s.len(),
    ensures
        lookup(s, s[i].0) == Some(s[i].1),
{
    let name = s[i].0;
    assert(named(s, name));
    lemma_one_position(s, i, place(s, name));
}

/// Without its last entry an ordered sequence lacks one name and is otherwise the same.
proof fn lemma_drop_last<V>(s: Seq<(Seq<char>, V)>, name: Seq<char>)
    requires
        ordered(s),
        s.len() > 0,
    ensures
        ordered(s.drop_last()),
        lookup(s.drop_last(), name) == if name == s.last().0 {
            None
        } else {
            lookup(s, name)
        },
{
    let t = s.drop_last();
    let n = t.len() as int;
    assert forall|i: int, j: int| 0 <= i < j < t.len() implies text::text_less(
        t[i].0,
        t[j].0,
    ) by {
        assert(t[i] == s[i] && t[j] == s[j]);
    }
    if named(t, name) {
        let k = place(t, name);
        assert(s[k] == t[k]);
        lemma_lookup_at(t, k);
        lemma_lookup_at(s, k);
        if name == s.last().0 {
            lemma_one_position(s, k, n);
        }
    } else if named(s, name) {
        let k = place(s, name);
        if k < n {
            assert(t[k] == s[k]);
        }
    }
}

/// Ordered sequences that give every name the same value are the same.
pub proof fn lemma_same_entries<V>(a: Seq<(Seq<char>, V)>, b: Seq<(Seq<char>, V)>)
    requires
        ordered(a),
        ordered(b),
        forall|x: Seq<char>| #[trigger] lookup(a, x) == lookup(b, x),
    ensures
        a == b,
    decreases a.len(),
{
    if a.len() == 0 || b.len() == 0 {
        if b.len() > 0 {
            lemma_lookup_at(b, 0);
            assert(lookup(a, b[0].0) == lookup(b, b[0].0));
        }
        if a.len() > 0 {
            lemma_lookup_at(a, 0);
            assert(lookup(a, a[0].0) == lookup(b, a[0].0));
        }
        assert(a =~= b);
    } else {
        let (x, y) = (a.last().0, b.last().0);
        lemma_lookup_at(a, a.len() - 1);
        lemma_lookup_at(b, b.len() - 1);
        assert(lookup(a, x) == lookup(b, x));
        assert(lookup(a, y) == lookup(b, y));
        let i = place(a, y);
        let j = place(b, x);
        if x != y {
            assert(text::text_less(a[i].0, a[a.len() - 1].0));
            assert(text::text_less(b[j].0, b[b.len() - 1].0));
            text::lemma_text_transitive(x, y, x);
            text::lemma_text_irreflexive(x);
        }
        assert forall|z: Seq<char>| #[trigger]
            lookup(a.drop_last(), z) == lookup(b.drop_last(), z) by {
            lemma_drop_last(a, z);
            lemma_drop_last(b, z);
            assert(lookup(a, z) == lookup(b, z));
        }
        lemma_drop_last(a, x);
        lemma_drop_last(b, x);
        lemma_same_entries(a.drop_last(), b.drop_last());
        assert(a =~= a.drop_last().push(a.last()));
        assert(b =~= b.drop_last().push(b.last()));
    }
}

/// What an insertion at `i` does to the entries.
pub open spec fn inserted<V>(
    s: Seq<(Seq<char>, V)>,
    i: int,
    name: Seq<char>,
    value: V,
) -> Seq<(Seq<char>, V)> {
    if i < s.len() && s[i].0 == name {
        s.update(i, (name, value))
    } else {
        s.insert(i, (name, value))
    }
}

/// `i` is where `name` stands or belongs: every entry before it is smaller and none
/// from there on is.
pub open spec fn belongs<V>(s: Seq<(Seq<char>, V)>, i: int, name: Seq<char>) -> bool {
    &&& 0 <= i <= s.len()
    &&& forall|k: int| 0 <= k < i ==> text::text_less((#[trigger] s[k]).0, name)
    &&& forall|k: int| i <= k < s.len() ==> (#[trigger] s[k]).0 == name || text::text_less(name, s[k].0)
}

/// Inserting keeps the order and changes the value of one name only.
pub proof fn lemma_inserted<V>(s: Seq<(Seq<char>, V)>, i: int, name: Seq<char>, value: V)
    requires
        ordered(s),
        belongs(s, i, name),
    ensures
        ordered(inserted(s, i, name, value)),
        forall|other: Seq<char>| #[trigger]
            lookup(inserted(s, i, name, value), other) == if other == name {
                Some(value)
            } else {
                lookup(s, other)
            },
        forall|other: Seq<char>| #[trigger]
            named(inserted(s, i, name, value), other) == (other == name || named(s, other)),
{
    let t = inserted(s, i, name, value);
    let here = i < s.len() && s[i].0 == name;
    assert forall|a: int, b: int| 0 <= a < b < t.len() implies text::text_less(t[a].0, t[b].0) by {
        if here {
            assert(t[a].0 == s[a].0 && t[b].0 == s[b].0);
        } else {
            let sa = if a < i { a } else { a - 1 };
            let sb = if b < i { b } else { b - 1 };
            if a != i && b != i {
                assert(text::text_less(s[sa].0, s[sb].0));
            } else if a == i {
                assert(t[b] == s[sb]);
                if s[sb].0 == name {
                    if sb > i {
                        assert(text::text_less(s[i].0, s[sb].0));
                        assert(text::text_less(name, s[i].0));
                        text::lemma_text_transitive(name, s[i].0, name);
                        text::lemma_text_irreflexive(name);
                    }
                }
            } else {
                assert(t[a] == s[a]);
            }
        }
    }
    assert(t[i] == (name, value));
    assert forall|other: Seq<char>| #[trigger] named(t, other) == (other == name || named(s, other)) by {
        if named(s, other) {
            let k = choose|k: int| 0 <= k < s.len() && (#[trigger] s[k]).0 == other;
            if here || k < i {
                assert(t[k].0 == other);
            } else {
                assert(t[k + 1].0 == other);
            }
        }
        if named(t, other) && other != name {
            let k = choose|k: int| 0 <= k < t.len() && (#[trigger] t[k]).0 == other;
            if here || k < i {
                assert(s[k].0 == other);
            } else {
                assert(s[k - 1].0 == other);
            }
        }
    }
    assert forall|other: Seq<char>| #[trigger]
        lookup(t, other) == if other == name {
            Some(value)
        } else {
            lookup(s, other)
        } by {
        if other == name {
            lemma_lookup_at(t, i);
        } else if named(s, other) {
            let k = choose|k: int| 0 <= k < s.len() && (#[trigger] s[k]).0 == other;
            lemma_lookup_at(s, k);
            if here || k < i {
                assert(t[k] == s[k]);
                lemma_lookup_at(t, k);
            } else {
                assert(t[k + 1] == s[k]);
                lemma_lookup_at(t, k + 1);
            }
        } else {
            assert(!named(t, other));
        }
    }
}

impl<V: View> View for NameMap<V> {
    type V = Seq<(Seq<char>, V::V)>;

    closed spec fn view(&self) -> Seq<(Seq<char>, V::V)> {
        Seq::new(self.entries@.len(), |i: int| (self.entries@[i].0@, self.entries@[i].1@))
    }
}

impl<V> NameMap<V> {
    /// The names strictly increase.
    #[verifier::type_invariant]
    pub closed spec fn wf(&self) -> bool {
        forall|i: int, j: int|
            0 <= i < j < self.entries@.len() ==> text::text_less(
                self.entries@[i].0@,
                self.entries@[j].0@,
            )
    }
}

proof fn lemma_increasing<V: View>(view: Seq<(Seq<char>, V::V)>, entries: Seq<(String, V)>)
    requires
        ordered(view),
        view == Seq::new(entries.len(), |k: int| (entries[k].0@, entries[k].1@)),
    ensures
        forall|i: int, j: int|
            0 <= i < j < entries.len() ==> text::text_less(entries[i].0@, entries[j].0@),
{
    assert forall|i: int, j: int| 0 <= i < j < entries.len() implies text::text_less(
        entries[i].0@,
        entries[j].0@,
    ) by {
        assert(view[i].0 == entries[i].0@);
        assert(view[j].0 == entries[j].0@);
    }
}

impl<V: View> NameMap<V> {
    /// What the invariant says.
    pub proof fn lemma_wf(&self)
        requires
            self.wf(),
        ensures
            ordered(self@),
    {
        assert forall|i: int, j: int| 0 <= i < j < self@.len() implies text::text_less(
            self@[i].0,
            self@[j].0,
        ) by {
            assert(self@[i].0 == self.entries@[i].0@);
            assert(self@[j].0 == self.entries@[j].0@);
        }
    }

    /// The empty map.
    pub fn new() -> (r: NameMap<V>)
        ensures
            r@ == Seq::<(Seq<char>, V::V)>::empty(),
    {
        let r = NameMap { entries: Vec::new() };
        assert(r@ =~= Seq::<(Seq<char>, V::V)>::empty());
        r
    }

    /// The number of entries.
    pub fn len(&self) -> (n: usize)
        ensures
            n == self@.len(),
            ordered(self@),
    {
        proof {
            use_type_invariant(self);
            self.lemma_wf();
        }
        self.entries.len()
    }

    /// Is the map empty?
    pub fn is_empty(&self) -> (b: bool)
        ensures
            b == (self@.len() == 0),
    {
        self.entries.len() == 0
    }

    /// The name of the entry at `i`, in order.
    pub fn name_at(&self, i: usize) -> (r: &String)
        requires
            i < self@.len(),
        ensures
            r@ == self@[i as int].0,
    {
        &self.entries[i].0
    }

    /// The value of the entry at `i`, in order.
    pub fn value_at(&self, i: usize) -> (r: &V)
        requires
            i < self@.len(),
        ensures
            r@ == self@[i as int].1,
    {
        &self.entries[i].1
    }

    /// Where a name stands or belongs.
    pub fn position(&self, name: &str) -> (i: usize)
        ensures
            belongs(self@, i as int, name@),
            ordered(self@),
    {
        proof {
            use_type_invariant(self);
            self.lemma_wf();
        }
        let mut i: usize = 0;
        while i < self.entries.len()
            invariant
                i <= self@.len(),
                self@.len() == self.entries@.len(),
                ordered(self@),
                forall|k: int| 0 <= k < i ==> text::text_less((#[trigger] self@[k]).0, name@),
            decreases self@.len() - i,
        {
            match text_rank(self.entries[i].0.as_str(), name) {
                Rank::Less => {},
                _ => {
                    proof {
                        text::lemma_text_total(self@[i as int].0, name@);
                        assert forall|k: int| i <= k < self@.len() implies (#[trigger] self@[k]).0
                            == name@ || text::text_less(name@, self@[k].0) by {
                            if k > i {
                                assert(text::text_less(self@[i as int].0, self@[k].0));
                                if self@[i as int].0 != name@ {
                                    text::lemma_text_transitive(
                                        name@,
                                        self@[i as int].0,
                                        self@[k].0,
                                    );
                                }
                            }
                        }
                    }
                    return i;
                },
            }
            i += 1;
        }
        i
    }

    /// The value of a name.
    pub fn get(&self, name: &str) -> (r: Option<&V>)
        ensures
            r is Some <==> named(self@, name@),
            r matches Some(v) ==> lookup(self@, name@) == Some(v@),
            r is None ==> lookup(self@, name@) is None,
    {
        let i = self.position(name);
        if i < self.entries.len() {
            match text_rank(self.entries[i].0.as_str(), name) {
                Rank::Same => {
                    proof {
                        assert(self@[i as int].0 == name@);
                        lemma_lookup_at(self@, i as int);
                    }
                    return Some(&self.entries[i].1);
                },
                _ => {},
            }
        }
        proof {
            if named(self@, name@) {
                let k = choose|k: int| 0 <= k < self@.len() && (#[trigger] self@[k]).0 == name@;
                text::lemma_text_irreflexive(name@);
                if k > i {
                    assert(text::text_less(self@[i as int].0, self@[k].0));
                    assert(text::text_less(name@, self@[i as int].0));
                    text::lemma_text_transitive(name@, self@[i as int].0, name@);
                }
            }
        }
        None
    }

    /// Is there an entry of that name?
    pub fn contains_key(&self, name: &str) -> (b: bool)
        ensures
            b == named(self@, name@),
    {
        self.get(name).is_some()
    }

    /// Set the value of a name.
    pub fn insert(&mut self, name: String, value: V)
        ensures
            exists|i: int| belongs(old(self)@, i, name@) && final(self)@ == #[trigger] inserted(
                old(self)@,
                i,
                name@,
                value@,
            ),
            ordered(final(self)@),
            forall|other: Seq<char>| #[trigger]
                lookup(final(self)@, other) == if other == name@ {
                    Some(value@)
                } else {
                    lookup(old(self)@, other)
                },
            forall|other: Seq<char>| #[trigger]
                named(final(self)@, other) == (other == name@ || named(old(self)@, other)),
    {
        let i = self.position(name.as_str());
        let ghost before = self@;
        let ghost id = name@;
        let ghost val = value@;
        proof {
            lemma_inserted(before, i as int, name@, value@);
        }
        let mut entries: Vec<(String, V)> = Vec::new();
        std::mem::swap(&mut entries, &mut self.entries);
        let mut here = false;
        if i < entries.len() {
            match text_rank(entries[i].0.as_str(), name.as_str()) {
                Rank::Same => {
                    here = true;
                },
                _ => {},
            }
        }
        let ghost target = inserted(before, i as int, name@, value@);
        if here {
            entries[i] = (name, value);
        } else {
            entries.insert(i, (name, value));
        }
        proof {
            let view = Seq::new(entries@.len(), |k: int| (entries@[k].0@, entries@[k].1@));
            assert(view =~= target);
            lemma_increasing(view, entries@);
        }
        self.entries = entries;
        assert(self@ =~= target);
        assert(belongs(before, i as int, id));
    }

    /// Add an entry whose name is larger than every name in the map.
    pub fn push(&mut self, name: String, value: V)
        requires
            forall|k: int| 0 <= k < old(self)@.len() ==> text::text_less(
                (#[trigger] old(self)@[k]).0,
                name@,
            ),
        ensures
            final(self)@ == old(self)@.push((name@, value@)),
            ordered(final(self)@),
    {
        proof {
            use_type_invariant(&*self);
            self.lemma_wf();
        }
        let ghost before = self@;
        let ghost id = name@;
        let ghost val = value@;
        let mut entries: Vec<(String, V)> = Vec::new();
        std::mem::swap(&mut entries, &mut self.entries);
        entries.push((name, value));
        proof {
            let view = Seq::new(entries@.len(), |k: int| (entries@[k].0@, entries@[k].1@));
            assert(view =~= before.push((id, val)));
            lemma_increasing(view, entries@);
        }
        self.entries = entries;
        assert(self@ =~= before.push((id, val)));
    }

    /// Add an entry whose name is smaller than every name in the map.
    pub fn push_front(&mut self, name: String, value: V)
        requires
            forall|k: int| 0 <= k < old(self)@.len() ==> text::text_less(
                name@,
                (#[trigger] old(self)@[k]).0,
            ),
        ensures
            final(self)@ == seq![(name@, value@)] + old(self)@,
            ordered(final(self)@),
    {
        proof {
            use_type_invariant(&*self);
            self.lemma_wf();
        }
        let ghost before = self@;
        let ghost id = name@;
        let ghost val = value@;
        let ghost after = seq![(id, val)] + before;
        let mut entries: Vec<(String, V)> = Vec::new();
        std::mem::swap(&mut entries, &mut self.entries);
        entries.insert(0, (name, value));
        proof {
            let view = Seq::new(entries@.len(), |k: int| (entries@[k].0@, entries@[k].1@));
            assert(view =~= after);
            assert forall|i: int, j: int| 0 <= i < j < after.len() implies text::text_less(
                after[i].0,
                after[j].0,
            ) by {
                assert(after[j] == before[j - 1]);
                if i > 0 {
                    assert(after[i] == before[i - 1]);
                }
            }
            lemma_increasing(view, entries@);
        }
        self.entries = entries;
        assert(self@ =~= after);
    }
}

} // verus!
