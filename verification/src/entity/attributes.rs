//! Free-form attributes: JSON values filed under text keys, kept in key order.
use vstd::prelude::*;
use vstd::string::*;

use crate::text::{chars_lt, lemma_chars_lt_irreflexive, lemma_chars_lt_total,
    lemma_chars_lt_transitive, str_eq, str_less, string_views};

verus! {

#[verifier::external_type_specification]
#[verifier::external_body]
pub struct ExJsonValue(serde_json::Value);

/// Attribute entries in strictly increasing key order.
pub struct Attributes {
    entries: Vec<(String, serde_json::Value)>,
}

/// Entries as (key view, value) pairs.
pub open spec fn entry_views(v: Seq<(String, serde_json::Value)>) -> Seq<(Seq<char>, serde_json::Value)> {
    v.map_values(|e: (String, serde_json::Value)| (e.0@, e.1))
}

/// The keys of a list of entries, in order.
pub open spec fn entry_keys(s: Seq<(Seq<char>, serde_json::Value)>) -> Seq<Seq<char>> {
    s.map_values(|e: (Seq<char>, serde_json::Value)| e.0)
}

/// Keys in strictly increasing order (so each at most once).
pub open spec fn keys_sorted(s: Seq<(Seq<char>, serde_json::Value)>) -> bool {
    forall|i: int, j: int| 0 <= i < j < s.len() ==> chars_lt(#[trigger] s[i].0, #[trigger] s[j].0)
}

/// The value filed under `key`, if any (the last such entry).
pub open spec fn lookup(s: Seq<(Seq<char>, serde_json::Value)>, key: Seq<char>) -> Option<
    serde_json::Value,
>
    decreases s.len(),
{
    if s.len() == 0 {
        None
    } else if s.last().0 == key {
        Some(s.last().1)
    } else {
        lookup(s.drop_last(), key)
    }
}

/// In sorted entries, the entry at a position holding `key` gives the lookup.
pub proof fn lemma_lookup_at(s: Seq<(Seq<char>, serde_json::Value)>, i: int)
    requires
        keys_sorted(s),
        0 <= i < s.len(),
    ensures
        lookup(s, s[i].0) == Some(s[i].1),
    decreases s.len(),
{
    if i < s.len() - 1 {
        assert(chars_lt(s[i].0, s[s.len() - 1].0));
        lemma_chars_lt_irreflexive(s[i].0);
        let t = s.drop_last();
        assert(t[i] == s[i]);
        lemma_lookup_at(t, i);
    }
}

/// A key that no entry holds has no value.
pub proof fn lemma_lookup_absent(s: Seq<(Seq<char>, serde_json::Value)>, key: Seq<char>)
    requires
        forall|i: int| 0 <= i < s.len() ==> #[trigger] s[i].0 != key,
    ensures
        lookup(s, key) is None,
    decreases s.len(),
{
    if s.len() > 0 {
        let t = s.drop_last();
        assert(s[s.len() - 1].0 != key);
        assert forall|i: int| 0 <= i < t.len() implies #[trigger] t[i].0 != key by {
            assert(t[i] == s[i]);
        }
        lemma_lookup_absent(t, key);
    }
}

impl View for Attributes {
    type V = Seq<(Seq<char>, serde_json::Value)>;

    closed spec fn view(&self) -> Seq<(Seq<char>, serde_json::Value)> {
        entry_views(self.entries@)
    }
}

impl Attributes {
    #[verifier::type_invariant]
    spec fn sorted(self) -> bool {
        keys_sorted(entry_views(self.entries@))
    }

    /// No attribute at all.
    pub fn new() -> (r: Self)
        ensures
            r@ == Seq::<(Seq<char>, serde_json::Value)>::empty(),
    {
        let r = Attributes { entries: Vec::new() };
        assert(r@ =~= Seq::<(Seq<char>, serde_json::Value)>::empty());
        r
    }

    /// The number of attributes.
    pub fn len(&self) -> (r: usize)
        ensures
            r == self@.len(),
    {
        self.entries.len()
    }

    /// Whether there is no attribute.
    pub fn is_empty(&self) -> (r: bool)
        ensures
            r == (self@.len() == 0),
    {
        self.entries.len() == 0
    }

    /// The position of `key`, or where it would be inserted.
    fn position(&self, key: &str) -> (r: (usize, bool))
        ensures
            r.0 <= self@.len(),
            forall|k: int| 0 <= k < r.0 ==> chars_lt(#[trigger] self@[k].0, key@),
            r.1 ==> r.0 < self@.len() && self@[r.0 as int].0 == key@,
            !r.1 ==> r.0 == self@.len() || chars_lt(key@, self@[r.0 as int].0),
    {
        proof {
            use_type_invariant(self);
        }
        let mut j: usize = 0;
        while j < self.entries.len() && str_less(self.entries[j].0.as_str(), key)
            invariant
                j <= self@.len(),
                self@ == entry_views(self.entries@),
                forall|k: int| 0 <= k < j ==> chars_lt(#[trigger] self@[k].0, key@),
            decreases self@.len() - j,
        {
            j += 1;
        }
        if j < self.entries.len() {
            if str_eq(self.entries[j].0.as_str(), key) {
                return (j, true);
            }
            proof {
                lemma_chars_lt_total(self@[j as int].0, key@);
            }
        }
        (j, false)
    }

    /// The value filed under `key`, if any.
    pub fn get(&self, key: &str) -> (r: Option<&serde_json::Value>)
        ensures
            match r {
                Some(v) => lookup(self@, key@) == Some(*v),
                None => lookup(self@, key@) is None,
            },
    {
        proof {
            use_type_invariant(self);
        }
        let (j, found) = self.position(key);
        if found {
            proof {
                lemma_lookup_at(self@, j as int);
            }
            Some(&self.entries[j].1)
        } else {
            proof {
                self.lemma_absent(key@, j as int);
            }
            None
        }
    }

    proof fn lemma_absent(&self, key: Seq<char>, j: int)
        requires
            keys_sorted(self@),
            0 <= j <= self@.len(),
            forall|k: int| 0 <= k < j ==> chars_lt(#[trigger] self@[k].0, key),
            j == self@.len() || chars_lt(key, self@[j].0),
        ensures
            lookup(self@, key) is None,
            forall|i: int| 0 <= i < self@.len() ==> #[trigger] self@[i].0 != key,
    {
        assert forall|i: int| 0 <= i < self@.len() implies #[trigger] self@[i].0 != key by {
            lemma_chars_lt_irreflexive(key);
            if i > j {
                assert(chars_lt(self@[j].0, self@[i].0));
                if self@[i].0 == key {
                    lemma_chars_lt_transitive(key, self@[j].0, key);
                }
            }
        }
        lemma_lookup_absent(self@, key);
    }

    /// Files `value` under `key`, replacing and returning what was there.
    pub fn insert(&mut self, key: String, value: serde_json::Value) -> (r: Option<serde_json::Value>)
        ensures
            r == lookup(old(self)@, key@),
            keys_sorted(final(self)@),
            lookup(final(self)@, key@) == Some(value),
            forall|k: Seq<char>| k != key@ ==> #[trigger] lookup(final(self)@, k) == lookup(
                old(self)@,
                k,
            ),
    {
        proof {
            use_type_invariant(&*self);
        }
        let ghost s = self@;
        let (j, found) = self.position(key.as_str());
        proof {
            if !found {
                self.lemma_absent(key@, j as int);
            }
        }
        let mut entries: Vec<(String, serde_json::Value)> = Vec::new();
        std::mem::swap(&mut entries, &mut self.entries);
        assert(entry_views(entries@) == s);
        if found {
            assert(entries@[j as int].1 == s[j as int].1);
            let (k, old_value) = entries.remove(j);
            entries.insert(j, (k, value));
            let ghost n = entry_views(entries@);
            proof {
                lemma_lookup_at(s, j as int);
                assert(n == s.update(j as int, (key@, value)));
                assert(keys_sorted(n));
                lemma_lookup_at(n, j as int);
                assert forall|k: Seq<char>| k != key@ implies #[trigger] lookup(n, k) == lookup(
                    s,
                    k,
                ) by {
                    if exists|i: int| 0 <= i < s.len() && s[i].0 == k {
                        let i = choose|i: int| 0 <= i < s.len() && s[i].0 == k;
                        lemma_lookup_at(s, i);
                        assert(n[i] == s[i]);
                        lemma_lookup_at(n, i);
                    } else {
                        assert forall|i: int| 0 <= i < n.len() implies #[trigger] n[i].0 != k by {
                            if i != j {
                                assert(n[i] == s[i]);
                            }
                        }
                        lemma_lookup_absent(n, k);
                        lemma_lookup_absent(s, k);
                    }
                }
            }
            self.entries = entries;
            Some(old_value)
        } else {
            entries.insert(j, (key, value));
            let ghost n = entry_views(entries@);
            proof {
                assert(n == s.insert(j as int, (key@, value)));
                assert(keys_sorted(n)) by {
                    assert forall|a: int, b: int| 0 <= a < b < n.len() implies chars_lt(
                        #[trigger] n[a].0,
                        #[trigger] n[b].0,
                    ) by {
                        if b < j {
                            assert(n[a] == s[a] && n[b] == s[b]);
                        } else if b == j {
                            assert(n[a] == s[a]);
                        } else if a == j {
                            assert(n[b] == s[b - 1]);
                            if b - 1 > j {
                                lemma_chars_lt_transitive(key@, s[j as int].0, s[b - 1].0);
                            }
                        } else if a < j {
                            assert(n[a] == s[a] && n[b] == s[b - 1]);
                        } else {
                            assert(n[a] == s[a - 1] && n[b] == s[b - 1]);
                        }
                    }
                }
                lemma_lookup_at(n, j as int);
                assert forall|k: Seq<char>| k != key@ implies #[trigger] lookup(n, k) == lookup(
                    s,
                    k,
                ) by {
                    if exists|i: int| 0 <= i < s.len() && s[i].0 == k {
                        let i = choose|i: int| 0 <= i < s.len() && s[i].0 == k;
                        lemma_lookup_at(s, i);
                        if i < j {
                            assert(n[i] == s[i]);
                            lemma_lookup_at(n, i);
                        } else {
                            assert(n[i + 1] == s[i]);
                            lemma_lookup_at(n, i + 1);
                        }
                    } else {
                        assert forall|i: int| 0 <= i < n.len() implies #[trigger] n[i].0 != k by {
                            if i < j {
                                assert(n[i] == s[i]);
                            } else if i > j {
                                assert(n[i] == s[i - 1]);
                            }
                        }
                        lemma_lookup_absent(n, k);
                        lemma_lookup_absent(s, k);
                    }
                }
            }
            self.entries = entries;
            None
        }
    }

    /// Removes and returns the value filed under `key`, if any.
    pub fn remove(&mut self, key: &str) -> (r: Option<serde_json::Value>)
        ensures
            r == lookup(old(self)@, key@),
            keys_sorted(final(self)@),
            lookup(final(self)@, key@) is None,
            forall|k: Seq<char>| k != key@ ==> #[trigger] lookup(final(self)@, k) == lookup(
                old(self)@,
                k,
            ),
            final(self)@.len() == if lookup(old(self)@, key@) is Some {
                old(self)@.len() - 1
            } else {
                old(self)@.len() as int
            },
    {
        proof {
            use_type_invariant(&*self);
        }
        let ghost s = self@;
        let (j, found) = self.position(key);
        if !found {
            proof {
                self.lemma_absent(key@, j as int);
            }
            return None;
        }
        let mut entries: Vec<(String, serde_json::Value)> = Vec::new();
        std::mem::swap(&mut entries, &mut self.entries);
        assert(entry_views(entries@) == s);
        let (_k, old_value) = entries.remove(j);
        let ghost n = entry_views(entries@);
        proof {
            lemma_lookup_at(s, j as int);
            assert(n == s.remove(j as int));

            assert(keys_sorted(n)) by {
                assert forall|a: int, b: int| 0 <= a < b < n.len() implies chars_lt(
                    #[trigger] n[a].0,
                    #[trigger] n[b].0,
                ) by {
                    if b < j {
                        assert(n[a] == s[a] && n[b] == s[b]);
                    } else if a < j {
                        assert(n[a] == s[a] && n[b] == s[b + 1]);
                    } else {
                        assert(n[a] == s[a + 1] && n[b] == s[b + 1]);
                    }
                }
            }
            assert forall|i: int| 0 <= i < n.len() implies #[trigger] n[i].0 != key@ by {
                lemma_chars_lt_irreflexive(key@);
                if i < j {
                    assert(n[i] == s[i]);
                    assert(chars_lt(s[i].0, s[j as int].0));
                } else {
                    assert(n[i] == s[i + 1]);
                    assert(chars_lt(s[j as int].0, s[i + 1].0));
                }
            }
            lemma_lookup_absent(n, key@);
            assert forall|k: Seq<char>| k != key@ implies #[trigger] lookup(n, k) == lookup(
                s,
                k,
            ) by {
                if exists|i: int| 0 <= i < s.len() && s[i].0 == k {
                    let i = choose|i: int| 0 <= i < s.len() && s[i].0 == k;
                    lemma_lookup_at(s, i);
                    if i < j {
                        assert(n[i] == s[i]);
                        lemma_lookup_at(n, i);
                    } else {
                        assert(i != j);
                        assert(n[i - 1] == s[i]);
                        lemma_lookup_at(n, i - 1);
                    }
                } else {
                    assert forall|i: int| 0 <= i < n.len() implies #[trigger] n[i].0 != k by {
                        if i < j {
                            assert(n[i] == s[i]);
                        } else {
                            assert(n[i] == s[i + 1]);
                        }
                    }
                    lemma_lookup_absent(n, k);
                    lemma_lookup_absent(s, k);
                }
            }
        }
        self.entries = entries;
        Some(old_value)
    }

    /// The keys, in increasing order.
    pub fn keys(&self) -> (r: Vec<String>)
        ensures
            string_views(r@) == entry_keys(self@),
            keys_sorted(self@),
    {
        proof {
            use_type_invariant(self);
        }
        let mut out: Vec<String> = Vec::new();
        let mut i: usize = 0;
        while i < self.entries.len()
            invariant
                i <= self@.len(),
                self@ == entry_views(self.entries@),
                string_views(out@) == entry_keys(self@).take(i as int),
            decreases self@.len() - i,
        {
            let ghost before = string_views(out@);
            out.push(self.entries[i].0.clone());
            assert(string_views(out@) == before.push(self@[i as int].0));
            assert(entry_keys(self@).take(i + 1) == entry_keys(self@).take(i as int).push(
                self@[i as int].0,
            ));
            i += 1;
        }
        assert(entry_keys(self@).take(self@.len() as int) == entry_keys(self@));
        out
    }

    /// The entries, in increasing key order.
    pub fn entries(&self) -> (r: &Vec<(String, serde_json::Value)>)
        ensures
            entry_views(r@) == self@,
    {
        &self.entries
    }
}

} // verus!
