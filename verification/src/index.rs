//! Secondary indexes: each item maps a (kind, key) pair, such as a domain's
//! name, to the identifiers of the entities that carry it.
use vstd::prelude::*;
use vstd::string::*;

use crate::entity::{lex_lt, HashID, lemma_lex_asymmetric, lemma_lex_irreflexive, lemma_lex_total,
    lemma_lex_transitive};
use crate::error::Error;

verus! {

broadcast use crate::entity::lemma_hash_id_ext;

/// The storage path prefix of every key that the library writes.
pub const BASE_PATH: &'static str = "0ae";

/// The abstract content of an index item.
pub struct ItemView {
    pub kind: Seq<char>,
    pub key: Seq<char>,
    pub values: Seq<HashID>,
}

struct ItemData {
    key: String,
    value: Vec<HashID>,
}

/// One index entry: the identifiers filed under a (kind, key) pair.
pub struct Item {
    kind: String,
    data: ItemData,
}

/// A list of index items, as produced for one entity.
pub struct Index(Vec<Item>);

/// Identifiers in strictly increasing byte order (so each at most once).
pub open spec fn strictly_sorted(s: Seq<HashID>) -> bool {
    forall|i: int, j: int| 0 <= i < j < s.len() ==> lex_lt(#[trigger] s[i]@, #[trigger] s[j]@)
}

/// `result` is the sorted, duplicate-free union of `old` and `added`.
pub open spec fn merged(old: Seq<HashID>, added: Seq<HashID>, result: Seq<HashID>) -> bool {
    &&& strictly_sorted(result)
    &&& forall|y: HashID| #[trigger] result.contains(y) <==> (old.contains(y) || added.contains(y))
}

/// The identifiers of `s` that do not occur in `removed`, in order.
pub open spec fn without(s: Seq<HashID>, removed: Seq<HashID>) -> Seq<HashID>
    decreases s.len(),
{
    if s.len() == 0 {
        Seq::empty()
    } else {
        let rest = without(s.drop_last(), removed);
        if removed.contains(s.last()) {
            rest
        } else {
            rest.push(s.last())
        }
    }
}

/// The storage path of the index item of `kind` and `key`.
pub open spec fn index_path(kind: Seq<char>, key: Seq<char>) -> Seq<char> {
    BASE_PATH@ + "/index/"@ + kind + "/"@ + key
}

impl View for Item {
    type V = ItemView;

    closed spec fn view(&self) -> ItemView {
        ItemView { kind: self.kind@, key: self.data.key@, values: self.data.value@ }
    }
}

/// Whether `v` holds `x`.
fn contains_id(v: &Vec<HashID>, x: &HashID) -> (r: bool)
    ensures
        r == v@.contains(*x),
{
    let mut i: usize = 0;
    while i < v.len()
        invariant
            i <= v@.len(),
            forall|j: int| 0 <= j < i ==> v@[j] != *x,
        decreases v@.len() - i,
    {
        if v[i].same_as(x) {
            assert(v@[i as int] == *x);
            return true;
        }
        i += 1;
    }
    false
}

/// Inserts `x` into a strictly sorted vector, unless it is already there.
fn insert_sorted(v: &mut Vec<HashID>, x: HashID)
    requires
        strictly_sorted(old(v)@),
    ensures
        strictly_sorted(final(v)@),
        forall|y: HashID| #[trigger] final(v)@.contains(y) <==> (old(v)@.contains(y) || y == x),
{
    let mut j: usize = 0;
    while j < v.len() && v[j].less_than(&x)
        invariant
            j <= v@.len(),
            strictly_sorted(v@),
            forall|k: int| 0 <= k < j ==> lex_lt(#[trigger] v@[k]@, x@),
        decreases v@.len() - j,
    {
        j += 1;
    }
    if j < v.len() && v[j].same_as(&x) {
        assert(v@[j as int] == x);
        return;
    }
    let ghost old_v = v@;
    proof {
        if j < old_v.len() {
            assert(!lex_lt(old_v[j as int]@, x@));
            assert(old_v[j as int]@ != x@);
            lemma_lex_total(old_v[j as int]@, x@);
        }
    }
    v.insert(j, x);
    assert(v@ == old_v.insert(j as int, x));
    assert forall|a: int, b: int| 0 <= a < b < v@.len() implies lex_lt(
        #[trigger] v@[a]@,
        #[trigger] v@[b]@,
    ) by {
        if b < j {
        } else if b == j {
        } else if a < j {
            if a + 1 < b {
                assert(lex_lt(old_v[a]@, old_v[b - 1]@));
            } else {
                lemma_lex_transitive(old_v[a]@, x@, old_v[j as int]@);
            }
            if b - 1 > j {
                lemma_lex_transitive(old_v[a]@, old_v[j as int]@, old_v[b - 1]@);
            }
        } else if a == j {
            if b - 1 > j {
                lemma_lex_transitive(x@, old_v[j as int]@, old_v[b - 1]@);
            }
        } else {
            assert(lex_lt(old_v[a - 1]@, old_v[b - 1]@));
        }
    }
    assert forall|y: HashID| #[trigger] v@.contains(y) <==> (old_v.contains(y) || y == x) by {
        if v@.contains(y) {
            let k = choose|k: int| 0 <= k < v@.len() && v@[k] == y;
            if k < j {
                assert(old_v[k] == y);
            } else if k > j {
                assert(old_v[k - 1] == y);
            }
        }
        if old_v.contains(y) {
            let k = choose|k: int| 0 <= k < old_v.len() && old_v[k] == y;
            if k < j {
                assert(v@[k] == y);
            } else {
                assert(v@[k + 1] == y);
            }
        }
        if y == x {
            assert(v@[j as int] == y);
        }
    }
}

/// Two strictly sorted lists with the same elements are the same list.
pub proof fn lemma_sorted_unique(a: Seq<HashID>, b: Seq<HashID>)
    requires
        strictly_sorted(a),
        strictly_sorted(b),
        forall|y: HashID| #[trigger] a.contains(y) <==> b.contains(y),
    ensures
        a == b,
    decreases a.len() + b.len(),
{
    if a.len() == 0 {
        if b.len() > 0 {
            assert(b.contains(b[0]));
            assert(a.contains(b[0]));
        }
        assert(a =~= b);
    } else if b.len() == 0 {
        assert(a.contains(a[0]));
    } else {
        let x = a.last();
        let y = b.last();
        assert(a.contains(x));
        assert(b.contains(y));
        assert(b.contains(x));
        assert(a.contains(y));
        // the last elements are both the greatest element
        assert(x == y) by {
            if x != y {
                let kb = choose|k: int| 0 <= k < b.len() && b[k] == x;
                let ka = choose|k: int| 0 <= k < a.len() && a[k] == y;
                if kb < b.len() - 1 {
                    assert(lex_lt(x@, y@));
                } else {
                    assert(b[b.len() - 1] == x);
                }
                if ka < a.len() - 1 {
                    assert(lex_lt(y@, x@));
                } else {
                    assert(a[a.len() - 1] == y);
                }
                lemma_lex_asymmetric(x@, y@);
            }
        }
        let a2 = a.drop_last();
        let b2 = b.drop_last();
        assert forall|z: HashID| #[trigger] a2.contains(z) <==> b2.contains(z) by {
            if a2.contains(z) {
                let k = choose|k: int| 0 <= k < a2.len() && a2[k] == z;
                assert(lex_lt(a[k]@, a[a.len() - 1]@));
                lemma_lex_irreflexive(x@);
                assert(z != x);
                assert(a.contains(z));
                let kb = choose|k: int| 0 <= k < b.len() && b[k] == z;
                assert(kb != b.len() - 1);
                assert(b2[kb] == z);
            }
            if b2.contains(z) {
                let k = choose|k: int| 0 <= k < b2.len() && b2[k] == z;
                assert(lex_lt(b[k]@, b[b.len() - 1]@));
                lemma_lex_irreflexive(y@);
                assert(z != y);
                assert(b.contains(z));
                assert(a.contains(z));
                let ka = choose|k: int| 0 <= k < a.len() && a[k] == z;
                assert(ka != a.len() - 1);
                assert(a2[ka] == z);
            }
        }
        lemma_sorted_unique(a2, b2);
        assert(a =~= a2.push(x));
        assert(b =~= b2.push(y));
    }
}

/// Merging identifiers that a sorted item already files leaves it as it was:
/// saving the same index entry again changes nothing.
pub proof fn law_merge_idempotent(old: Seq<HashID>, added: Seq<HashID>, result: Seq<HashID>)
    requires
        strictly_sorted(old),
        forall|y: HashID| #[trigger] added.contains(y) ==> old.contains(y),
        merged(old, added, result),
    ensures
        result == old,
{
    lemma_sorted_unique(result, old);
}

/// The outcome of a merge does not depend on which side was stored first.
pub proof fn law_merge_commutative(
    a: Seq<HashID>,
    b: Seq<HashID>,
    r1: Seq<HashID>,
    r2: Seq<HashID>,
)
    requires
        merged(a, b, r1),
        merged(b, a, r2),
    ensures
        r1 == r2,
{
    lemma_sorted_unique(r1, r2);
}

/// Subtracting keeps exactly the identifiers that are not removed, and keeps
/// a sorted list sorted.
pub proof fn law_without(s: Seq<HashID>, removed: Seq<HashID>)
    ensures
        forall|y: HashID| #[trigger]
            without(s, removed).contains(y) <==> (s.contains(y) && !removed.contains(y)),
        strictly_sorted(s) ==> strictly_sorted(without(s, removed)),
    decreases s.len(),
{
    if s.len() > 0 {
        let init = s.drop_last();
        law_without(init, removed);
        let rest = without(init, removed);
        assert forall|y: HashID| #[trigger]
            without(s, removed).contains(y) <==> (s.contains(y) && !removed.contains(y)) by {
            if s.contains(y) && y != s.last() {
                let k = choose|k: int| 0 <= k < s.len() && s[k] == y;
                assert(init[k] == y);
            }
            if init.contains(y) {
                let k = choose|k: int| 0 <= k < init.len() && init[k] == y;
                assert(s[k] == y);
            }
            assert(s[s.len() - 1] == s.last());
            if !removed.contains(s.last()) {
                assert(rest.push(s.last())[rest.len() as int] == s.last());
                if rest.push(s.last()).contains(y) {
                    let k = choose|k: int| 0 <= k < rest.len() + 1 && rest.push(s.last())[k] == y;
                    if k < rest.len() {
                        assert(rest[k] == y);
                    }
                }
                if rest.contains(y) {
                    let k = choose|k: int| 0 <= k < rest.len() && rest[k] == y;
                    assert(rest.push(s.last())[k] == y);
                }
            }
        }
        if strictly_sorted(s) {
            assert forall|i: int, j: int| 0 <= i < j < init.len() implies lex_lt(
                #[trigger] init[i]@,
                #[trigger] init[j]@,
            ) by {
                assert(init[i] == s[i] && init[j] == s[j]);
            }
            if !removed.contains(s.last()) {
                let n = rest.push(s.last());
                assert forall|i: int, j: int| 0 <= i < j < n.len() implies lex_lt(
                    #[trigger] n[i]@,
                    #[trigger] n[j]@,
                ) by {
                    if j == rest.len() {
                        assert(rest.contains(rest[i]));
                        let k = choose|k: int| 0 <= k < init.len() && init[k] == rest[i];
                        assert(lex_lt(s[k]@, s[s.len() - 1]@));
                    }
                }
            }
        }
    }
}

impl Item {
    /// An item filing the single identifier `hash` under `kind` and `key`.
    pub fn new(kind: &str, key: &str, hash: &HashID) -> (r: Result<Self, Error>)
        ensures
            r matches Ok(item) && item@ == (ItemView {
                kind: kind@,
                key: key@,
                values: seq![*hash],
            }),
    {
        let mut value: Vec<HashID> = Vec::new();
        value.push(*hash);
        let data = ItemData { key: key.to_string(), value };
        Ok(Self { kind: kind.to_string(), data })
    }

    /// The storage path of this item.
    pub fn path(&self) -> (r: String)
        ensures
            r@ == index_path(self@.kind, self@.key),
    {
        let mut p = BASE_PATH.to_string();
        p.append("/index/");
        p.append(self.kind.as_str());
        p.append("/");
        p.append(self.data.key.as_str());
        p
    }

    /// Whether the item files no identifier at all.
    pub fn is_empty(&self) -> (r: bool)
        ensures
            r == (self@.values.len() == 0),
    {
        self.data.value.len() == 0
    }

    /// The filed identifiers, for changing in place.
    fn values_mut(&mut self) -> (r: &mut Vec<HashID>)
        ensures
            *r == old(self).data.value,
            final(self)@ == (ItemView { values: final(r)@, ..old(self)@ }),
    {
        &mut self.data.value
    }

    /// The filed identifiers.
    fn into_values(self) -> (r: Vec<HashID>)
        ensures
            r@ == self@.values,
    {
        self.data.value
    }

    /// Adds the identifiers of `item`; the result is sorted and has no
    /// identifier twice.
    pub fn merge(&mut self, item: Item)
        ensures
            final(self)@.kind == old(self)@.kind,
            final(self)@.key == old(self)@.key,
            merged(old(self)@.values, item@.values, final(self)@.values),
    {
        let ghost old_values = self@.values;
        let added = item.into_values();
        let mut result: Vec<HashID> = Vec::new();
        let values = self.values_mut();
        let mut i: usize = 0;
        while i < values.len()
            invariant
                i <= values@.len(),
                values@ == old_values,
                strictly_sorted(result@),
                forall|y: HashID| #[trigger]
                    result@.contains(y) <==> values@.take(i as int).contains(y),
            decreases values@.len() - i,
        {
            insert_sorted(&mut result, values[i]);
            proof {
                let t = values@.take(i + 1);
                assert(t == values@.take(i as int).push(values@[i as int]));
                assert forall|y: HashID| #[trigger] t.contains(y) <==> (values@.take(
                    i as int,
                ).contains(y) || y == values@[i as int]) by {
                    if t.contains(y) {
                        let k = choose|k: int| 0 <= k < t.len() && t[k] == y;
                        if k < i {
                            assert(values@.take(i as int)[k] == y);
                        }
                    }
                    if values@.take(i as int).contains(y) {
                        let k = choose|k: int| 0 <= k < i && values@.take(i as int)[k] == y;
                        assert(t[k] == y);
                    }
                    if y == values@[i as int] {
                        assert(t[i as int] == y);
                    }
                }
            }
            i += 1;
        }
        assert(values@.take(values@.len() as int) == values@);
        let mut k: usize = 0;
        while k < added.len()
            invariant
                k <= added@.len(),
                strictly_sorted(result@),
                forall|y: HashID| #[trigger]
                    result@.contains(y) <==> (old_values.contains(y) || added@.take(
                        k as int,
                    ).contains(y)),
            decreases added@.len() - k,
        {
            insert_sorted(&mut result, added[k]);
            proof {
                let t = added@.take(k + 1);
                assert(t == added@.take(k as int).push(added@[k as int]));
                assert forall|y: HashID| #[trigger] t.contains(y) <==> (added@.take(
                    k as int,
                ).contains(y) || y == added@[k as int]) by {
                    if t.contains(y) {
                        let m = choose|m: int| 0 <= m < t.len() && t[m] == y;
                        if m < k {
                            assert(added@.take(k as int)[m] == y);
                        }
                    }
                    if added@.take(k as int).contains(y) {
                        let m = choose|m: int| 0 <= m < k && added@.take(k as int)[m] == y;
                        assert(t[m] == y);
                    }
                    if y == added@[k as int] {
                        assert(t[k as int] == y);
                    }
                }
            }
            k += 1;
        }
        assert(added@.take(added@.len() as int) == added@);
        *values = result;
    }

    /// Drops every identifier that `item` files, keeping the order of the rest.
    pub fn subtract(&mut self, item: Item)
        ensures
            final(self)@.kind == old(self)@.kind,
            final(self)@.key == old(self)@.key,
            final(self)@.values == without(old(self)@.values, item@.values),
    {
        let removed = item.into_values();
        let values = self.values_mut();
        let mut kept: Vec<HashID> = Vec::new();
        let mut i: usize = 0;
        while i < values.len()
            invariant
                i <= values@.len(),
                kept@ == without(values@.take(i as int), removed@),
            decreases values@.len() - i,
        {
            let ghost t = values@.take(i + 1);
            assert(t.drop_last() == values@.take(i as int));
            assert(t.last() == values@[i as int]);
            if !contains_id(&removed, &values[i]) {
                kept.push(values[i]);
            }
            i += 1;
        }
        assert(values@.take(values@.len() as int) == values@);
        *values = kept;
    }

    /// An item with exactly the given kind, key and identifiers, as stored.
    pub fn from_parts(kind: String, key: String, values: Vec<HashID>) -> (r: Self)
        ensures
            r@ == (ItemView { kind: kind@, key: key@, values: values@ }),
    {
        Item { kind, data: ItemData { key, value: values } }
    }

    /// The kind of key the item files under (such as `name`).
    pub fn kind(&self) -> (r: &String)
        ensures
            r@ == self@.kind,
    {
        &self.kind
    }

    /// The key the item files under.
    pub fn key(&self) -> (r: &String)
        ensures
            r@ == self@.key,
    {
        &self.data.key
    }

    /// The filed identifiers, in stored order.
    pub fn values(&self) -> (r: &Vec<HashID>)
        ensures
            r@ == self@.values,
    {
        &self.data.value
    }

    /// The filed identifiers.
    pub fn value(self) -> (r: Vec<HashID>)
        ensures
            r@ == self@.values,
    {
        self.data.value
    }
}

impl Index {
    /// An index with no item.
    pub fn new() -> (r: Self)
        ensures
            r@ == Seq::<ItemView>::empty(),
    {
        Index(Vec::new())
    }

    /// Appends an item.
    pub fn push(&mut self, item: Item)
        ensures
            final(self)@ == old(self)@.push(item@),
    {
        self.0.push(item);
    }

    /// The items, in the order they were pushed.
    pub fn value(self) -> (r: Vec<Item>)
        ensures
            r@.map_values(|i: Item| i@) == self@,
    {
        self.0
    }
}

impl View for Index {
    type V = Seq<ItemView>;

    closed spec fn view(&self) -> Seq<ItemView> {
        self.0@.map_values(|i: Item| i@)
    }
}

} // verus!
