//! The attributes of a tag: a mapping from key to value with one value per
//! key, held in the order of its keys.

use crate::text::{
    comes_before, lemma_order_asymmetric, lemma_order_total, lemma_order_transitive, precedes,
    same_bytes,
};
use vstd::prelude::*;
use vstd::string::*;
use vstd::utf8::*;

verus! {

/// A key and its value, each as the bytes of its UTF-8 form.
pub type Entry = (Seq<u8>, Seq<u8>);

/// Whether the keys of `s` rise strictly from each entry to the next.
pub open spec fn strictly_sorted(s: Seq<Entry>) -> bool {
    forall|i: int, j: int|
        #![trigger s[i], s[j]]
        0 <= i < j < s.len() ==> comes_before(s[i].0, s[j].0)
}

/// Whether `s` holds an entry for `key`.
pub open spec fn has_key(s: Seq<Entry>, key: Seq<u8>) -> bool {
    exists|i: int| 0 <= i < s.len() && (#[trigger] s[i]).0 == key
}

/// The mapping that a listing stands for: each key that occurs, to the value beside it.
pub open spec fn mapping(s: Seq<Entry>) -> Map<Seq<u8>, Seq<u8>> {
    Map::new(
        |key: Seq<u8>| has_key(s, key),
        |key: Seq<u8>| s[choose|i: int| 0 <= i < s.len() && (#[trigger] s[i]).0 == key].1,
    )
}

/// The first index from `from` on whose key does not come before `key`.
pub open spec fn slot(s: Seq<Entry>, key: Seq<u8>, from: int) -> int
    decreases s.len() - from,
{
    if from < 0 || from >= s.len() || !comes_before(s[from].0, key) {
        from
    } else {
        slot(s, key, from + 1)
    }
}

/// The listing `s` after `key` was given `value`: the entry for `key` is
/// replaced where there is one, and else put in at the place that the order
/// of keys gives it.
pub open spec fn with_entry(s: Seq<Entry>, key: Seq<u8>, value: Seq<u8>) -> Seq<Entry> {
    let i = slot(s, key, 0);
    if i < s.len() && s[i].0 == key {
        s.update(i, (key, value))
    } else {
        s.insert(i, (key, value))
    }
}

/// What `slot` finds: every key before it comes before `key`, the key at it does not.
pub proof fn lemma_slot(s: Seq<Entry>, key: Seq<u8>, from: int)
    requires
        0 <= from <= s.len(),
    ensures
        from <= slot(s, key, from) <= s.len(),
        forall|j: int| from <= j < slot(s, key, from) ==> comes_before((#[trigger] s[j]).0, key),
        slot(s, key, from) == s.len() || !comes_before(s[slot(s, key, from)].0, key),
    decreases s.len() - from,
{
    if from < s.len() && comes_before(s[from].0, key) {
        lemma_slot(s, key, from + 1);
    }
}

/// In a sorted listing an entry is found under its key.
pub proof fn lemma_mapping_at(s: Seq<Entry>, i: int)
    requires
        strictly_sorted(s),
        0 <= i < s.len(),
    ensures
        mapping(s).contains_key(s[i].0),
        mapping(s)[s[i].0] == s[i].1,
{
    let key = s[i].0;
    let j = choose|j: int| 0 <= j < s.len() && (#[trigger] s[j]).0 == key;
    if j < i {
        lemma_order_asymmetric(s[j].0, s[i].0);
    } else if i < j {
        lemma_order_asymmetric(s[i].0, s[j].0);
    }
}

/// Giving a key a value keeps a sorted listing sorted.
pub proof fn lemma_with_entry_sorted(s: Seq<Entry>, key: Seq<u8>, value: Seq<u8>)
    requires
        strictly_sorted(s),
    ensures
        strictly_sorted(with_entry(s, key, value)),
{
    lemma_slot(s, key, 0);
    let i = slot(s, key, 0);
    let t = with_entry(s, key, value);
    if i < s.len() && s[i].0 == key {
        assert forall|a: int, b: int| 0 <= a < b < t.len() implies comes_before(
            (#[trigger] t[a]).0,
            (#[trigger] t[b]).0,
        ) by {
            assert(t[a].0 == s[a].0);
            assert(t[b].0 == s[b].0);
        }
    } else {
        if i < s.len() {
            lemma_order_total(s[i].0, key);
        }
        assert forall|a: int, b: int| 0 <= a < b < t.len() implies comes_before(
            (#[trigger] t[a]).0,
            (#[trigger] t[b]).0,
        ) by {
            if b < i {
                assert(t[a] == s[a] && t[b] == s[b]);
            } else if b == i {
                assert(t[a] == s[a]);
            } else if a < i {
                assert(t[a] == s[a] && t[b] == s[b - 1]);
                if i < b - 1 {
                    lemma_order_transitive(key, s[i].0, s[b - 1].0);
                }
                lemma_order_transitive(s[a].0, key, s[b - 1].0);
            } else if a == i {
                assert(t[b] == s[b - 1]);
                if i < b - 1 {
                    lemma_order_transitive(key, s[i].0, s[b - 1].0);
                }
            } else {
                assert(t[a] == s[a - 1] && t[b] == s[b - 1]);
            }
        }
    }
}

/// Giving a key a value changes the mapping at that key and nowhere else.
pub proof fn lemma_with_entry_mapping(s: Seq<Entry>, key: Seq<u8>, value: Seq<u8>)
    requires
        strictly_sorted(s),
    ensures
        mapping(with_entry(s, key, value)) == mapping(s).insert(key, value),
{
    lemma_slot(s, key, 0);
    lemma_with_entry_sorted(s, key, value);
    let i = slot(s, key, 0);
    let t = with_entry(s, key, value);
    let replaced = i < s.len() && s[i].0 == key;
    assert(t[i] == (key, value));
    lemma_mapping_at(t, i);
    assert forall|k: Seq<u8>| mapping(t).contains_key(k) <==> mapping(s).insert(
        key,
        value,
    ).contains_key(k) by {
        if k != key {
            if has_key(s, k) {
                let j = choose|j: int| 0 <= j < s.len() && (#[trigger] s[j]).0 == k;
                let j2 = if replaced || j < i { j } else { j + 1 };
                assert(t[j2] == s[j]);
            }
            if has_key(t, k) {
                let j = choose|j: int| 0 <= j < t.len() && (#[trigger] t[j]).0 == k;
                let j2 = if replaced || j < i { j } else { j - 1 };
                assert(s[j2] == t[j]);
            }
        }
    }
    assert forall|k: Seq<u8>| mapping(t).contains_key(k) implies mapping(t)[k] == mapping(
        s,
    ).insert(key, value)[k] by {
        if k != key {
            let j = choose|j: int| 0 <= j < t.len() && (#[trigger] t[j]).0 == k;
            let j2 = if replaced || j < i { j } else { j - 1 };
            assert(s[j2] == t[j]);
            lemma_mapping_at(s, j2);
            lemma_mapping_at(t, j);
        }
    }
    assert(mapping(t) =~= mapping(s).insert(key, value));
}

/// A key that comes after every key of a sorted listing is put at its end.
pub proof fn lemma_with_last_entry(s: Seq<Entry>, key: Seq<u8>, value: Seq<u8>)
    requires
        forall|j: int| 0 <= j < s.len() ==> comes_before((#[trigger] s[j]).0, key),
    ensures
        with_entry(s, key, value) == s.push((key, value)),
{
    lemma_slot(s, key, 0);
    let i = slot(s, key, 0);
    if i < s.len() {
        assert(comes_before(s[i].0, key));
    }
    assert(s.insert(i, (key, value)) =~= s.push((key, value)));
}

/// The attributes of one tag. Each key occurs once; a key that is given a
/// value again keeps the later one. The entries stand in the order of their keys.
#[derive(Debug, PartialEq, Eq)]
pub struct Attributes {
    entries: Vec<(String, String)>,
}

impl View for Attributes {
    type V = Map<Seq<u8>, Seq<u8>>;

    /// The attributes as a mapping from key to value.
    open spec fn view(&self) -> Map<Seq<u8>, Seq<u8>> {
        mapping(self.listing())
    }
}

impl Attributes {
    /// The entries in the order in which they are held.
    pub closed spec fn listing(&self) -> Seq<Entry> {
        self.entries@.map_values(|e: (String, String)| (encode_utf8(e.0@), encode_utf8(e.1@)))
    }

    #[verifier::type_invariant]
    closed spec fn sorted(&self) -> bool {
        strictly_sorted(self.listing())
    }

    /// No attributes.
    pub fn new() -> (attributes: Self)
        ensures
            attributes.listing() == Seq::<Entry>::empty(),
            attributes@ == Map::<Seq<u8>, Seq<u8>>::empty(),
    {
        let attributes = Attributes { entries: Vec::new() };
        assert(attributes.listing() =~= Seq::<Entry>::empty());
        assert(attributes@ =~= Map::<Seq<u8>, Seq<u8>>::empty());
        attributes
    }

    /// The number of entries. Their keys rise strictly, so no key occurs twice.
    pub fn len(&self) -> (n: usize)
        ensures
            n == self.listing().len(),
            strictly_sorted(self.listing()),
    {
        proof {
            use_type_invariant(self);
        }
        self.entries.len()
    }

    /// The entry at `index` in the order of keys, if there are that many.
    pub fn entry(&self, index: usize) -> (found: Option<(&str, &str)>)
        ensures
            found is Some <==> index < self.listing().len(),
            found matches Some((key, value)) ==> (key.spec_bytes(), value.spec_bytes())
                == self.listing()[index as int],
    {
        if index < self.entries.len() {
            let e = &self.entries[index];
            Some((e.0.as_str(), e.1.as_str()))
        } else {
            None
        }
    }

    /// The value that `key` has, if it has one.
    pub fn get(&self, key: &str) -> (found: Option<&str>)
        ensures
            found is Some <==> self@.contains_key(key.spec_bytes()),
            found matches Some(value) ==> value.spec_bytes() == self@[key.spec_bytes()],
    {
        proof {
            use_type_invariant(self);
        }
        let mut i: usize = 0;
        while i < self.entries.len()
            invariant
                i <= self.entries.len(),
                strictly_sorted(self.listing()),
                forall|j: int| 0 <= j < i ==> (#[trigger] self.listing()[j]).0 != key.spec_bytes(),
            decreases self.entries.len() - i,
        {
            if same_bytes(self.entries[i].0.as_str(), key) {
                proof {
                    lemma_mapping_at(self.listing(), i as int);
                }
                return Some(self.entries[i].1.as_str());
            }
            i += 1;
        }
        None
    }

    /// Gives `key` the value `value`, in place of the one it had if it had one.
    pub fn insert(&mut self, key: String, value: String)
        ensures
            final(self)@ == old(self)@.insert(encode_utf8(key@), encode_utf8(value@)),
            final(self).listing() == with_entry(
                old(self).listing(),
                encode_utf8(key@),
                encode_utf8(value@),
            ),
    {
        proof {
            use_type_invariant(&*self);
        }
        let ghost before = self.listing();
        let ghost k = encode_utf8(key@);
        let ghost v = encode_utf8(value@);
        let mut i: usize = 0;
        while i < self.entries.len() && precedes(self.entries[i].0.as_str(), key.as_str())
            invariant
                i <= self.entries.len(),
                self.listing() == before,
                k == encode_utf8(key@),
                slot(before, k, 0) == slot(before, k, i as int),
            decreases self.entries.len() - i,
        {
            i += 1;
        }
        proof {
            lemma_with_entry_sorted(before, k, v);
            lemma_with_entry_mapping(before, k, v);
        }
        let replace = i < self.entries.len() && same_bytes(
            self.entries[i].0.as_str(),
            key.as_str(),
        );
        // The entries are taken out while they change: what `self` holds is
        // sorted at every step.
        let mut entries: Vec<(String, String)> = Vec::new();
        assert(self.entries@.map_values(|e: (String, String)| (encode_utf8(e.0@), encode_utf8(e.1@)))
            == before);
        core::mem::swap(&mut self.entries, &mut entries);
        if replace {
            entries.set(i, (key, value));
        } else {
            entries.insert(i, (key, value));
        }
        assert(entries@.map_values(|e: (String, String)| (encode_utf8(e.0@), encode_utf8(e.1@)))
            =~= with_entry(before, k, v));
        core::mem::swap(&mut self.entries, &mut entries);
    }
}

} // verus!
