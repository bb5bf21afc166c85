//! Textual IP addresses: which texts are IPv4 or IPv6 addresses, with the
//! grammar of the standard library's address parser (dotted-decimal IPv4
//! without leading zeros; IPv6 as eight hexadecimal groups, with at most one
//! `::` and an optional trailing dotted-decimal IPv4 part).
use vstd::prelude::*;

use crate::text::{chars_of, split_chars, split_on, views};

verus! {

/// An ASCII decimal digit.
pub open spec fn is_dec_digit(c: char) -> bool {
    '0' <= c && c <= '9'
}

/// An ASCII hexadecimal digit, in either case.
pub open spec fn is_hex_digit(c: char) -> bool {
    ('0' <= c && c <= '9') || ('a' <= c && c <= 'f') || ('A' <= c && c <= 'F')
}

/// The value of a string of decimal digits.
pub open spec fn dec_value(s: Seq<char>) -> nat
    decreases s.len(),
{
    if s.len() == 0 {
        0
    } else {
        dec_value(s.drop_last()) * 10 + (s.last() as int - '0' as int) as nat
    }
}

/// One to three decimal digits, without a leading zero, of value at most 255.
pub open spec fn is_dec_octet(s: Seq<char>) -> bool {
    &&& 1 <= s.len() <= 3
    &&& forall|j: int| 0 <= j < s.len() ==> is_dec_digit(#[trigger] s[j])
    &&& (s.len() > 1 ==> s[0] != '0')
    &&& dec_value(s) <= 255
}

/// Four octets separated by dots.
pub open spec fn is_ipv4_text(s: Seq<char>) -> bool {
    let parts = split_on(s, '.');
    &&& parts.len() == 4
    &&& forall|i: int| 0 <= i < 4 ==> is_dec_octet(#[trigger] parts[i])
}

/// One to four hexadecimal digits.
pub open spec fn is_h16(s: Seq<char>) -> bool {
    &&& 1 <= s.len() <= 4
    &&& forall|j: int| 0 <= j < s.len() ==> is_hex_digit(#[trigger] s[j])
}

/// Every part is a hexadecimal group.
pub open spec fn all_h16(parts: Seq<Seq<char>>) -> bool {
    forall|i: int| 0 <= i < parts.len() ==> is_h16(#[trigger] parts[i])
}

/// The number of 16-bit groups the parts stand for: one per hexadecimal
/// group, and two for a trailing IPv4 part; nothing when a part is neither.
pub open spec fn group_count(parts: Seq<Seq<char>>) -> Option<nat> {
    if all_h16(parts) {
        Some(parts.len())
    } else if parts.len() > 0 && all_h16(parts.drop_last()) && is_ipv4_text(parts.last()) {
        Some(parts.len() + 1)
    } else {
        None
    }
}

/// Whether `s` holds `::` at position `i`.
pub open spec fn double_colon_at(s: Seq<char>, i: int) -> bool {
    0 <= i && i + 1 < s.len() && s[i] == ':' && s[i + 1] == ':'
}

/// The position of the first `::` in `s`, or -1.
pub open spec fn first_double_colon(s: Seq<char>) -> int
    decreases s.len(),
{
    if s.len() < 2 {
        -1
    } else if s[0] == ':' && s[1] == ':' {
        0
    } else {
        let r = first_double_colon(s.drop_first());
        if r < 0 {
            -1
        } else {
            r + 1
        }
    }
}

/// The number of groups before a `::`: its hexadecimal groups, or -1.
pub open spec fn head_groups(head: Seq<char>) -> int {
    if head.len() == 0 {
        0
    } else if all_h16(split_on(head, ':')) {
        split_on(head, ':').len() as int
    } else {
        -1
    }
}

/// The number of groups after a `::`, or -1.
pub open spec fn tail_groups(tail: Seq<char>) -> int {
    if tail.len() == 0 {
        0
    } else {
        match group_count(split_on(tail, ':')) {
            Some(n) => n as int,
            None => -1,
        }
    }
}

/// An IPv6 address: eight groups, or fewer around a `::` that stands for at
/// least one zero group.
pub open spec fn is_ipv6_text(s: Seq<char>) -> bool {
    let k = first_double_colon(s);
    if k < 0 {
        group_count(split_on(s, ':')) == Some(8nat)
    } else {
        let h = head_groups(s.take(k));
        let t = tail_groups(s.skip(k + 2));
        h >= 0 && t >= 0 && h + t <= 7
    }
}

/// An IPv4 or an IPv6 address.
pub open spec fn is_ip_text(s: Seq<char>) -> bool {
    is_ipv4_text(s) || is_ipv6_text(s)
}

fn dec_octet(s: &Vec<char>) -> (r: bool)
    ensures
        r == is_dec_octet(s@),
{
    let n = s.len();
    if n == 0 || n > 3 {
        return false;
    }
    if n > 1 && s[0] == '0' {
        return false;
    }
    let mut v: u32 = 0;
    let mut i: usize = 0;
    while i < n
        invariant
            n == s@.len(),
            1 <= n <= 3,
            i <= n,
            v == dec_value(s@.take(i as int)),
            i == 0 ==> v < 1,
            i == 1 ==> v < 10,
            i == 2 ==> v < 100,
            i == 3 ==> v < 1000,
            forall|j: int| 0 <= j < i ==> is_dec_digit(#[trigger] s@[j]),
        decreases n - i,
    {
        let c = s[i];
        if !('0' <= c && c <= '9') {
            return false;
        }
        let d = (c as u32) - ('0' as u32);
        assert(s@.take(i + 1).drop_last() == s@.take(i as int));
        v = v * 10 + d;
        i += 1;
    }
    assert(s@.take(n as int) == s@);
    v <= 255
}

fn h16(s: &Vec<char>) -> (r: bool)
    ensures
        r == is_h16(s@),
{
    if s.len() == 0 || s.len() > 4 {
        return false;
    }
    let mut i: usize = 0;
    while i < s.len()
        invariant
            i <= s@.len(),
            forall|j: int| 0 <= j < i ==> is_hex_digit(#[trigger] s@[j]),
        decreases s@.len() - i,
    {
        let c = s[i];
        if !(('0' <= c && c <= '9') || ('a' <= c && c <= 'f') || ('A' <= c && c <= 'F')) {
            return false;
        }
        i += 1;
    }
    true
}

fn ipv4_chars(cs: &Vec<char>) -> (r: bool)
    ensures
        r == is_ipv4_text(cs@),
{
    let parts = split_chars(cs, '.');
    if parts.len() != 4 {
        return false;
    }
    let mut i: usize = 0;
    while i < 4
        invariant
            i <= 4,
            views(parts@) == split_on(cs@, '.'),
            parts@.len() == 4,
            forall|j: int| 0 <= j < i ==> is_dec_octet(#[trigger] views(parts@)[j]),
        decreases 4 - i,
    {
        assert(views(parts@)[i as int] == parts@[i as int]@);
        if !dec_octet(&parts[i]) {
            return false;
        }
        i += 1;
    }
    true
}

fn all_groups(parts: &Vec<Vec<char>>, upto: usize) -> (r: bool)
    requires
        upto <= parts@.len(),
    ensures
        r == all_h16(views(parts@).take(upto as int)),
{
    let mut i: usize = 0;
    while i < upto
        invariant
            i <= upto <= parts@.len(),
            forall|j: int| 0 <= j < i ==> is_h16(#[trigger] views(parts@)[j]),
        decreases upto - i,
    {
        if !h16(&parts[i]) {
            assert(views(parts@).take(upto as int)[i as int] == views(parts@)[i as int]);
            return false;
        }
        i += 1;
    }
    true
}

fn groups_of(parts: &Vec<Vec<char>>) -> (r: Option<(usize, bool)>)
    ensures
        match r {
            Some((n, v4)) => group_count(views(parts@)) == Some(
                n as nat + if v4 {
                    1nat
                } else {
                    0nat
                },
            ),
            None => group_count(views(parts@)) is None,
        },
{
    let n = parts.len();
    assert(views(parts@).take(n as int) == views(parts@));
    if all_groups(parts, n) {
        return Some((n, false));
    }
    if n > 0 {
        assert(views(parts@).take(n - 1) == views(parts@).drop_last());
        assert(views(parts@).last() == parts@[n - 1]@);
        if all_groups(parts, n - 1) && ipv4_chars(&parts[n - 1]) {
            return Some((n, true));
        }
    }
    None
}

proof fn lemma_first_double_colon_at(s: Seq<char>, k: int)
    requires
        double_colon_at(s, k),
        forall|j: int| 0 <= j < k ==> !double_colon_at(s, j),
    ensures
        first_double_colon(s) == k,
    decreases k,
{
    if k > 0 {
        assert(!double_colon_at(s, 0));
        let t = s.drop_first();
        assert forall|j: int| 0 <= j < k - 1 implies !double_colon_at(t, j) by {
            assert(!double_colon_at(s, j + 1));
        }
        lemma_first_double_colon_at(t, k - 1);
    }
}

proof fn lemma_no_double_colon(s: Seq<char>)
    requires
        forall|j: int| 0 <= j < s.len() ==> !double_colon_at(s, j),
    ensures
        first_double_colon(s) < 0,
    decreases s.len(),
{
    if s.len() >= 2 {
        assert(!double_colon_at(s, 0));
        let t = s.drop_first();
        assert forall|j: int| 0 <= j < t.len() implies !double_colon_at(t, j) by {
            assert(!double_colon_at(s, j + 1));
        }
        lemma_no_double_colon(t);
    }
}

fn find_double_colon(cs: &Vec<char>) -> (r: Option<usize>)
    ensures
        match r {
            Some(k) => first_double_colon(cs@) == k as int && k + 1 < cs@.len(),
            None => first_double_colon(cs@) < 0,
        },
{
    if cs.len() < 2 {
        proof {
            lemma_no_double_colon(cs@);
        }
        return None;
    }
    let mut i: usize = 0;
    while i < cs.len() - 1
        invariant
            cs@.len() >= 2,
            i <= cs@.len(),
            forall|j: int| 0 <= j < i ==> !double_colon_at(cs@, j),
        decreases cs@.len() - i,
    {
        if cs[i] == ':' && cs[i + 1] == ':' {
            proof {
                lemma_first_double_colon_at(cs@, i as int);
            }
            return Some(i);
        }
        i += 1;
    }
    proof {
        assert forall|j: int| 0 <= j < cs@.len() implies !double_colon_at(cs@, j) by {
            if j >= i {
                assert(j + 1 >= cs@.len());
            }
        }
        lemma_no_double_colon(cs@);
    }
    None
}

fn sub_chars(cs: &Vec<char>, from: usize, to: usize) -> (r: Vec<char>)
    requires
        from <= to <= cs@.len(),
    ensures
        r@ == cs@.subrange(from as int, to as int),
{
    let mut out: Vec<char> = Vec::new();
    let mut i: usize = from;
    while i < to
        invariant
            from <= i <= to <= cs@.len(),
            out@ == cs@.subrange(from as int, i as int),
        decreases to - i,
    {
        out.push(cs[i]);
        assert(cs@.subrange(from as int, i + 1) == cs@.subrange(from as int, i as int).push(
            cs@[i as int],
        ));
        i += 1;
    }
    out
}

fn ipv6_chars(cs: &Vec<char>) -> (r: bool)
    ensures
        r == is_ipv6_text(cs@),
{
    let found = find_double_colon(cs);
    match found {
        None => {
            let parts = split_chars(cs, ':');
            match groups_of(&parts) {
                Some((n, v4)) => if v4 {
                    n == 7
                } else {
                    n == 8
                },
                None => false,
            }
        },
        Some(k) => {
            let n = cs.len();
            assert(k + 1 < n);
            let head = sub_chars(cs, 0, k);
            let tail = sub_chars(cs, k + 2, n);
            assert(head@ == cs@.take(k as int));
            assert(tail@ == cs@.skip(k + 2));
            let h: usize = if head.len() == 0 {
                0
            } else {
                let hp = split_chars(&head, ':');
                assert(views(hp@).take(hp@.len() as int) == views(hp@));
                if all_groups(&hp, hp.len()) {
                    hp.len()
                } else {
                    return false;
                }
            };
            let t: usize = if tail.len() == 0 {
                0
            } else {
                let tp = split_chars(&tail, ':');
                match groups_of(&tp) {
                    Some((n, v4)) => if v4 {
                        if n >= 7 {
                            return false;
                        }
                        n + 1
                    } else {
                        n
                    },
                    None => return false,
                }
            };
            h <= 7 && t <= 7 - h
        },
    }
}

/// Whether `s` is an IPv4 or IPv6 address.
pub fn is_ip_address(s: &str) -> (r: bool)
    ensures
        r == is_ip_text(s@),
{
    let cs = chars_of(s);
    ipv4_chars(&cs) || ipv6_chars(&cs)
}

/// Whether `s` is an IPv6 address.
pub fn is_ipv6_address(s: &str) -> (r: bool)
    ensures
        r == is_ipv6_text(s@),
{
    let cs = chars_of(s);
    ipv6_chars(&cs)
}

} // verus!
