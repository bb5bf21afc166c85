//! Storage-side rules: key ranges for prefix scans, combining search results,
//! and reading stored records.
use vstd::prelude::*;
use vstd::string::*;
use base64::Engine;

use crate::entity::{entity_hash, hex_of, Entity, HashID};
use crate::error::Error;

verus! {

/// The character of the standard Base64 alphabet for a 6-bit value:
/// `A`-`Z`, `a`-`z`, `0`-`9`, `+`, `/`.
pub open spec fn base64_char(n: int) -> char {
    if n < 26 {
        (65 + n) as char
    } else if n < 52 {
        (97 + n - 26) as char
    } else if n < 62 {
        (48 + n - 52) as char
    } else if n == 62 {
        '+'
    } else {
        '/'
    }
}

/// The standard Base64 text of some bytes: each group of three bytes gives
/// four characters of six bits each; a last group of one or two bytes gives
/// two or three characters followed by `=` padding to four.
pub open spec fn base64_standard(data: Seq<u8>) -> Seq<char>
    decreases data.len(),
{
    if data.len() == 0 {
        Seq::empty()
    } else if data.len() == 1 {
        let a = data[0] as int;
        seq![base64_char(a / 4), base64_char((a % 4) * 16), '=', '=']
    } else if data.len() == 2 {
        let a = data[0] as int;
        let b = data[1] as int;
        seq![base64_char(a / 4), base64_char((a % 4) * 16 + b / 16), base64_char((b % 16) * 4), '=']
    } else {
        let a = data[0] as int;
        let b = data[1] as int;
        let c = data[2] as int;
        seq![
            base64_char(a / 4),
            base64_char((a % 4) * 16 + b / 16),
            base64_char((b % 16) * 4 + c / 64),
            base64_char(c % 64),
        ] + base64_standard(data.subrange(3, data.len() as int))
    }
}

/// The bytes that a standard Base64 text (with padding) stands for, if valid.
pub uninterp spec fn base64_standard_decode(text: Seq<u8>) -> Option<Seq<u8>>;

/// Encodes bytes as standard Base64, by the `base64` crate.
#[verifier::external_body]
pub(crate) fn base64_encode(data: &[u8]) -> (r: String)
    ensures
        r@ == base64_standard(data@),
{
    base64::engine::general_purpose::STANDARD.encode(data)
}

/// Decodes standard Base64, by the `base64` crate; the error is its message.
#[verifier::external_body]
pub(crate) fn base64_decode(text: &str) -> (r: Result<Vec<u8>, String>)
    ensures
        match r {
            Ok(v) => base64_standard_decode(text.spec_bytes()) == Some(v@),
            Err(_) => base64_standard_decode(text.spec_bytes()) is None,
        },
{
    match base64::engine::general_purpose::STANDARD.decode(text) {
        Ok(v) => Ok(v),
        Err(e) => Err(e.to_string()),
    }
}

/// The Base64 text under which a key or a value of text is sent to the
/// store: the standard Base64 of its UTF-8 bytes.
pub fn encode_key(key: &str) -> (r: String)
    ensures
        r@ == base64_standard(key.spec_bytes()),
{
    base64_encode(key.as_bytes())
}

/// The bytes of a value the store returns as standard Base64 text; an error
/// when the text is not valid Base64.
pub fn decode_stored_value(value: &str) -> (r: Result<Vec<u8>, String>)
    ensures
        match r {
            Ok(v) => base64_standard_decode(value.spec_bytes()) == Some(v@),
            Err(_) => base64_standard_decode(value.spec_bytes()) is None,
        },
{
    base64_decode(value)
}

/// The smallest key above every key that starts with `prefix`: trailing 0xff
/// bytes are dropped and the last remaining byte is raised by one; none when
/// every byte is 0xff (the scan then has no upper end).
pub open spec fn prefix_end(prefix: Seq<u8>) -> Option<Seq<u8>>
    decreases prefix.len(),
{
    if prefix.len() == 0 {
        None
    } else if prefix.last() < 255 {
        Some(prefix.drop_last().push((prefix.last() + 1) as u8))
    } else {
        prefix_end(prefix.drop_last())
    }
}

/// The end of the key range that holds every key with the byte prefix.
pub fn prefix_end_bytes(prefix: &[u8]) -> (r: Option<Vec<u8>>)
    ensures
        match r {
            Some(v) => prefix_end(prefix@) == Some(v@),
            None => prefix_end(prefix@) is None,
        },
{
    let mut bytes: Vec<u8> = Vec::new();
    let mut i: usize = 0;
    while i < prefix.len()
        invariant
            i <= prefix@.len(),
            bytes@ == prefix@.take(i as int),
        decreases prefix@.len() - i,
    {
        bytes.push(prefix[i]);
        i += 1;
        assert(prefix@.take(i as int) == prefix@.take(i - 1).push(prefix@[i - 1]));
    }
    assert(prefix@.take(prefix@.len() as int) == prefix@);
    while bytes.len() > 0
        invariant
            prefix_end(prefix@) == prefix_end(bytes@),
        decreases bytes@.len(),
    {
        let n = bytes.len();
        let last = bytes[n - 1];
        if last < 255 {
            let ghost before = bytes@;
            bytes.set(n - 1, last + 1);
            assert(bytes@ == before.drop_last().push((last + 1) as u8));
            return Some(bytes);
        }
        bytes.pop();
    }
    None
}

/// The Base64 end of the etcd key range that holds every key starting with
/// `prefix`.
pub fn range_end_for_prefix(prefix: &str) -> (r: Option<String>)
    ensures
        match r {
            Some(s) => prefix_end(prefix.spec_bytes()) matches Some(b) && s@ == base64_standard(b),
            None => prefix_end(prefix.spec_bytes()) is None,
        },
{
    match prefix_end_bytes(prefix.as_bytes()) {
        Some(v) => Some(base64_encode(v.as_slice())),
        None => None,
    }
}

/// The key-value store the entities live in.
pub enum StorageBackend {
    Consul,
    Etcd,
}

impl StorageBackend {
    /// The store to use, given the etcd address and the backend name that
    /// the environment holds, if any: etcd when an etcd address is set and
    /// not empty, else the named backend when it is `etcd` or `consul`, else
    /// Consul.
    pub fn select(etcd_url: Option<String>, backend: Option<String>) -> (r: StorageBackend)
        ensures
            r == if (etcd_url matches Some(u) && u@.len() > 0) || (backend matches Some(b) && b@
                == "etcd"@) {
                StorageBackend::Etcd
            } else {
                StorageBackend::Consul
            },
    {
        if let Some(u) = &etcd_url {
            if !u.as_str().is_empty() {
                return StorageBackend::Etcd;
            }
        }
        if let Some(b) = &backend {
            proof {
                reveal_strlit("etcd");
            }
            if crate::text::str_eq(b.as_str(), "etcd") {
                return StorageBackend::Etcd;
            }
        }
        StorageBackend::Consul
    }
}

/// A key-value record as Consul returns it; `value` is Base64 text.
pub struct Record {
    pub create_index: usize,
    pub flags: usize,
    pub key: String,
    pub lock_index: usize,
    pub modify_index: usize,
    pub value: String,
}

impl Record {
    /// The stored value's bytes, decoded from Base64.
    pub fn value_as_slice(&self) -> (r: Result<Vec<u8>, String>)
        ensures
            match r {
                Ok(v) => base64_standard_decode(
                    vstd::utf8::encode_utf8(self.value@),
                ) == Some(v@),
                Err(_) => base64_standard_decode(
                    vstd::utf8::encode_utf8(self.value@),
                ) is None,
            },
    {
        decode_stored_value(self.value.as_str())
    }
}

/// Whether `pattern` occurs in `s` as a contiguous piece.
pub open spec fn contains_text(s: Seq<char>, pattern: Seq<char>) -> bool {
    exists|i: int| 0 <= i && i + pattern.len() <= s.len() && #[trigger] s.subrange(i, i + pattern.len()) == pattern
}

/// Whether `pattern` occurs in `s`.
pub fn str_contains(s: &str, pattern: &str) -> (r: bool)
    ensures
        r == contains_text(s@, pattern@),
{
    let cs = crate::text::chars_of(s);
    let ps = crate::text::chars_of(pattern);
    if ps.len() > cs.len() {
        return false;
    }
    if ps.len() == 0 {
        assert(s@.subrange(0, 0 + pattern@.len() as int) =~= pattern@);
        return true;
    }
    let n = cs.len();
    let mut i: usize = 0;
    let last = cs.len() - ps.len();
    while i <= last
        invariant
            last == cs@.len() - ps@.len(),
            n == cs@.len(),
            ps@.len() > 0,
            ps@.len() <= cs@.len(),
            cs@ == s@,
            ps@ == pattern@,
            forall|k: int| 0 <= k < i ==> #[trigger] cs@.subrange(k, k + ps@.len()) != ps@,
        decreases last + 1 - i,
    {
        let mut j: usize = 0;
        while j < ps.len() && cs[i + j] == ps[j]
            invariant
                j <= ps@.len(),
                i <= last,
                n == cs@.len(),
                last == cs@.len() - ps@.len(),
                forall|m: int| 0 <= m < j ==> cs@[i + m] == ps@[m],
            decreases ps@.len() - j,
        {
            j += 1;
        }
        if j == ps.len() {
            assert(cs@.subrange(i as int, i + ps@.len()) =~= ps@);
            return true;
        }
        assert(cs@.subrange(i as int, i + ps@.len())[j as int] != ps@[j as int]);
        i += 1;
    }
    assert forall|k: int| 0 <= k && k + pattern@.len() <= s@.len() implies #[trigger] s@.subrange(
        k,
        k + pattern@.len(),
    ) != pattern@ by {
        assert(k < i);
    }
    false
}

/// The entities in order, each kept only at its first occurrence of its hash.
pub open spec fn first_by_hash(es: Seq<Entity>) -> Seq<Entity>
    decreases es.len(),
{
    if es.len() == 0 {
        Seq::empty()
    } else {
        let r = first_by_hash(es.drop_last());
        if exists|i: int|
            0 <= i < es.len() - 1 && entity_hash(#[trigger] es[i].kind) == entity_hash(
                es.last().kind,
            ) {
            r
        } else {
            r.push(es.last())
        }
    }
}

/// Keeping each hash at its first occurrence leaves no hash twice, keeps
/// only entities of the input, and drops no hash of the input.
pub proof fn law_first_by_hash(es: Seq<Entity>)
    ensures
        forall|i: int, j: int|
            0 <= i < j < first_by_hash(es).len() ==> entity_hash(
                #[trigger] first_by_hash(es)[i].kind,
            ) != entity_hash(#[trigger] first_by_hash(es)[j].kind),
        forall|i: int| 0 <= i < first_by_hash(es).len() ==> es.contains(#[trigger] first_by_hash(es)[i]),
        forall|k: int|
            0 <= k < es.len() ==> hashes_of(first_by_hash(es)).contains(
                entity_hash(#[trigger] es[k].kind),
            ),
    decreases es.len(),
{
    if es.len() > 0 {
        let p = es.drop_last();
        let r = first_by_hash(p);
        law_first_by_hash(p);
        let f = first_by_hash(es);
        assert forall|i: int| 0 <= i < r.len() implies es.contains(#[trigger] r[i]) by {
            let k = choose|k: int| 0 <= k < p.len() && p[k] == r[i];
            assert(es[k] == r[i]);
        }
        assert forall|k: int| 0 <= k < p.len() implies hashes_of(r).contains(
            entity_hash(#[trigger] es[k].kind),
        ) by {
            assert(es[k] == p[k]);
        }
        if exists|i: int|
            0 <= i < es.len() - 1 && entity_hash(#[trigger] es[i].kind) == entity_hash(
                es.last().kind,
            ) {
            assert(f == r);
            let i0 = choose|i: int|
                0 <= i < es.len() - 1 && entity_hash(#[trigger] es[i].kind) == entity_hash(
                    es.last().kind,
                );
            assert(hashes_of(r).contains(entity_hash(es[i0].kind)));
        } else {
            assert(f == r.push(es.last()));
            assert(hashes_of(f) == hashes_of(r).push(entity_hash(es.last().kind)));
            assert(hashes_of(f)[r.len() as int] == entity_hash(es.last().kind));
            assert forall|i: int, j: int| 0 <= i < j < f.len() implies entity_hash(
                #[trigger] f[i].kind,
            ) != entity_hash(#[trigger] f[j].kind) by {
                if j == r.len() {
                    assert(f[i] == r[i]);
                    assert(p.contains(r[i]));
                    let k = choose|k: int| 0 <= k < p.len() && p[k] == r[i];
                    assert(es[k] == p[k]);
                } else {
                    assert(f[i] == r[i] && f[j] == r[j]);
                }
            }
            assert forall|i: int| 0 <= i < f.len() implies es.contains(#[trigger] f[i]) by {
                if i == r.len() {
                    assert(es[es.len() - 1] == f[i]);
                } else {
                    assert(f[i] == r[i]);
                }
            }
            assert forall|k: int| 0 <= k < es.len() implies hashes_of(f).contains(
                entity_hash(#[trigger] es[k].kind),
            ) by {
                if k < p.len() {
                    assert(hashes_of(r).contains(entity_hash(es[k].kind)));
                    let i = choose|i: int| 0 <= i < hashes_of(r).len() && hashes_of(r)[i] == entity_hash(es[k].kind);
                    assert(hashes_of(f)[i] == hashes_of(r)[i]);
                } else {
                    assert(hashes_of(f)[r.len() as int] == entity_hash(es[k].kind));
                }
            }
        }
    }
}

/// The hashes of some entities, in order.
pub open spec fn hashes_of(es: Seq<Entity>) -> Seq<HashID> {
    es.map_values(|e: Entity| entity_hash(e.kind))
}

fn has_hash(hs: &Vec<HashID>, h: &HashID) -> (r: bool)
    ensures
        r == hs@.contains(*h),
{
    let mut i: usize = 0;
    while i < hs.len()
        invariant
            i <= hs@.len(),
            forall|k: int| 0 <= k < i ==> hs@[k] != *h,
        decreases hs@.len() - i,
    {
        if hs[i].same_as(h) {
            assert(hs@[i as int] == *h);
            return true;
        }
        i += 1;
    }
    false
}

/// Keeps each entity only at the first occurrence of its hash.
pub fn dedup_by_hash(es: Vec<Entity>) -> (r: Vec<Entity>)
    ensures
        r@ == first_by_hash(es@),
{
    let ghost all = es@;
    let mut out: Vec<Entity> = Vec::new();
    let mut rest = es;
    let mut seen: Vec<HashID> = Vec::new();
    let total = rest.len();
    let mut i: usize = 0;
    assert(all.skip(0) == all);
    assert(hashes_of(all.take(0)) =~= Seq::<HashID>::empty());
    while rest.len() > 0
        invariant
            i + rest@.len() == all.len(),
            total == all.len(),
            rest@ == all.skip(i as int),
            seen@ == hashes_of(all.take(i as int)),
            out@ == first_by_hash(all.take(i as int)),
        decreases rest@.len(),
    {
        let e = rest.remove(0);
        let ghost t = all.take(i + 1);
        assert(e == all[i as int]);
        assert(t.drop_last() == all.take(i as int));
        assert(t.last() == e);
        let h = *e.hash();
        let dup = has_hash(&seen, &h);
        proof {
            let p = all.take(i as int);
            assert(seen@.contains(h) == (exists|k: int|
                0 <= k < t.len() - 1 && entity_hash(#[trigger] t[k].kind) == entity_hash(
                    t.last().kind,
                ))) by {
                if seen@.contains(h) {
                    let k = choose|k: int| 0 <= k < seen@.len() && seen@[k] == h;
                    assert(t[k] == p[k]);
                }
                if exists|k: int|
                    0 <= k < t.len() - 1 && entity_hash(#[trigger] t[k].kind) == entity_hash(
                        t.last().kind,
                    ) {
                    let k = choose|k: int|
                        0 <= k < t.len() - 1 && entity_hash(#[trigger] t[k].kind) == entity_hash(
                            t.last().kind,
                        );
                    assert(t[k] == p[k]);
                    assert(seen@[k] == h);
                }
            }
            assert(hashes_of(t) == seen@.push(h));
        }
        seen.push(h);
        if !dup {
            out.push(e);
        }
        i += 1;
        assert(rest@ == all.skip(i as int));
    }
    assert(all.take(all.len() as int) == all);
    out
}

/// The result of a search: the entity found by hash, the one found by slug,
/// those found by hostname and by name, then the single partial-hash match;
/// each entity once, at its first place. More than one partial-hash match is
/// an error.
pub open spec fn search_result(
    by_hash: Option<Entity>,
    by_slug: Option<Entity>,
    by_hostname: Seq<Entity>,
    by_name: Seq<Entity>,
    partial: Seq<Entity>,
) -> Seq<Entity> {
    let direct = match by_hash {
        Some(e) => seq![e],
        None => Seq::empty(),
    };
    let slug = match by_slug {
        Some(e) => seq![e],
        None => Seq::empty(),
    };
    first_by_hash(direct + slug + by_hostname + by_name + partial)
}

/// Combines the partial results of a search by pattern.
pub fn combine_found(
    by_hash: Option<Entity>,
    by_slug: Option<Entity>,
    by_hostname: Vec<Entity>,
    by_name: Vec<Entity>,
    partial: Vec<Entity>,
    pattern: &str,
) -> (r: Result<Vec<Entity>, Error>)
    ensures
        partial@.len() > 1 ==> (r matches Err(Error::DuplicateEntity { pattern: p }) && p@
            == pattern@),
        partial@.len() <= 1 ==> (r matches Ok(v) && v@ == search_result(
            by_hash,
            by_slug,
            by_hostname@,
            by_name@,
            partial@,
        )),
{
    if partial.len() > 1 {
        return Err(Error::DuplicateEntity { pattern: pattern.to_string() });
    }
    let ghost g = (by_hash, by_slug, by_hostname@, by_name@, partial@);
    let mut all: Vec<Entity> = Vec::new();
    if let Some(e) = by_hash {
        all.push(e);
    }
    if let Some(e) = by_slug {
        all.push(e);
    }
    let mut h = by_hostname;
    all.append(&mut h);
    let mut n = by_name;
    all.append(&mut n);
    let mut p = partial;
    all.append(&mut p);
    proof {
        let direct = match g.0 {
            Some(e) => seq![e],
            None => Seq::<Entity>::empty(),
        };
        let slug = match g.1 {
            Some(e) => seq![e],
            None => Seq::<Entity>::empty(),
        };
        assert(all@ =~= direct + slug + g.2 + g.3 + g.4);
    }
    Ok(dedup_by_hash(all))
}

/// Whether the entity's hexadecimal identifier contains `pattern`.
pub fn hash_contains(e: &Entity, pattern: &str) -> (r: bool)
    ensures
        r == contains_text(hex_of(entity_hash(e.kind)), pattern@),
{
    let hex = e.hash().as_hex();
    str_contains(hex.as_str(), pattern)
}

/// The entity a search designates: the last one found, provided every entity
/// found has the same hash; nothing otherwise.
pub fn pick_single(entities: Vec<Entity>) -> (r: Option<Entity>)
    ensures
        r == if entities@.len() > 0 && forall|i: int|
            0 <= i < entities@.len() ==> entity_hash(#[trigger] entities@[i].kind) == entity_hash(
                entities@[0].kind,
            ) {
            Some(entities@.last())
        } else {
            None::<Entity>
        },
{
    if entities.len() == 0 {
        return None;
    }
    let first = *entities[0].hash();
    let mut i: usize = 0;
    while i < entities.len()
        invariant
            i <= entities@.len(),
            entities@.len() > 0,
            first == entity_hash(entities@[0].kind),
            forall|k: int| 0 <= k < i ==> entity_hash(#[trigger] entities@[k].kind) == first,
        decreases entities@.len() - i,
    {
        if !entities[i].hash().same_as(&first) {
            return None;
        }
        i += 1;
    }
    let mut es = entities;
    es.pop()
}

} // verus!
