//! IPv4 address pools: subnets that hand out host addresses.
//!
//! Addresses are 32-bit numbers (`a.b.c.d` is `a*2^24 + b*2^16 + c*2^8 + d`).
use vstd::prelude::*;
use vstd::string::*;
use std::collections::BTreeSet;

use crate::entity::{hex_of, id_of_text, text_id, HashID};
use crate::error::Error;
use crate::text::{decimal, decimal_string, str_eq};

verus! {

broadcast use vstd::std_specs::btree::group_btree_axioms, vstd::laws_cmp::group_laws_cmp;

/// `2` to the power `e`.
pub open spec fn two_pow(e: nat) -> nat
    decreases e,
{
    if e == 0 {
        1
    } else {
        2 * two_pow((e - 1) as nat)
    }
}

proof fn lemma_two_pow_monotone(e: nat, f: nat)
    requires
        e <= f,
    ensures
        two_pow(e) <= two_pow(f),
    decreases f,
{
    if e < f {
        lemma_two_pow_monotone(e, (f - 1) as nat);
    }
}

proof fn lemma_two_pow_31()
    ensures
        two_pow(31) == 0x8000_0000,
{
    reveal_with_fuel(two_pow, 32);
}

/// The number of host addresses of a subnet with prefix length `mask`
/// (network and broadcast addresses excluded).
pub open spec fn host_count(mask: u8) -> int {
    two_pow((32 - mask) as nat) - 2
}

/// The abstract state of a subnet.
pub struct SubnetView {
    pub base: u32,
    pub mask: u8,
    pub allocated: Set<u32>,
}

/// An IPv4 subnet and the addresses handed out from it.
pub struct Subnet {
    base: u32,
    mask: u8,
    allocated: BTreeSet<u32>,
}

impl View for Subnet {
    type V = SubnetView;

    closed spec fn view(&self) -> SubnetView {
        SubnetView { base: self.base, mask: self.mask, allocated: self.allocated@ }
    }
}

/// A prefix length from 1 to 31 whose host range fits below 2^32.
pub open spec fn valid_subnet(base: u32, mask: u8) -> bool {
    &&& 1 <= mask <= 31
    &&& base + host_count(mask) <= u32::MAX
}

/// Whether handing out the lowest free host stays within 32-bit addresses:
/// the prefix length is from 1 to 31, and either every host address fits
/// below 2^32 or a free host is found before the first one that does not.
pub open spec fn allocate_ok(s: SubnetView) -> bool {
    &&& 1 <= s.mask <= 31
    &&& (s.base + host_count(s.mask) <= u32::MAX || exists|j: int|
        0 <= j < host_count(s.mask) && s.base + j + 1 <= u32::MAX && !s.allocated.contains(
            #[trigger] host_at(s.base, j),
        ))
}

/// Whether reserving `count` consecutive hosts stays within 32-bit
/// addresses: the prefix length is from 1 to 31, `count` is at most the
/// number of hosts, and either every host address fits below 2^32 or a free
/// run is found before the first run that does not fit.
pub open spec fn reserve_block_ok(s: SubnetView, count: int) -> bool {
    &&& 1 <= s.mask <= 31
    &&& 0 <= count <= host_count(s.mask)
    &&& (s.base + host_count(s.mask) <= u32::MAX || exists|st: int|
        0 <= st <= host_count(s.mask) - count && s.base + st + count <= u32::MAX
            && #[trigger] block_free(s, st, count))
}

/// The address of host number `idx` (the first host is number 0).
pub open spec fn host_at(base: u32, idx: int) -> u32 {
    (base + idx + 1) as u32
}

/// Whether `ip` is a host address of the subnet.
pub open spec fn in_subnet(base: u32, mask: u8, ip: u32) -> bool {
    base < ip && ip <= base + host_count(mask)
}

/// Whether hosts `start .. start + count` are all free.
pub open spec fn block_free(s: SubnetView, start: int, count: int) -> bool {
    forall|i: int| 0 <= i < count ==> !s.allocated.contains(#[trigger] host_at(s.base, start + i))
}

/// The hosts `start .. start + count`, in order.
pub open spec fn block_at(base: u32, start: int, count: int) -> Seq<u32> {
    Seq::new(count as nat, |i: int| host_at(base, start + i))
}

/// What handing out the lowest free host does: the address returned was
/// free, every lower host was taken, and it is now taken; when every host is
/// taken nothing changes.
pub open spec fn allocate_result(old: SubnetView, new: SubnetView, r: Option<u32>) -> bool {
    &&& new.base == old.base
    &&& new.mask == old.mask
    &&& match r {
        Some(ip) => {
            &&& in_subnet(old.base, old.mask, ip)
            &&& !old.allocated.contains(ip)
            &&& forall|j: int|
                0 <= j < ip - old.base - 1 ==> old.allocated.contains(
                    #[trigger] host_at(old.base, j),
                )
            &&& new.allocated == old.allocated.insert(ip)
        },
        None => {
            &&& forall|j: int|
                0 <= j < host_count(old.mask) ==> old.allocated.contains(
                    #[trigger] host_at(old.base, j),
                )
            &&& new.allocated == old.allocated
        },
    }
}

/// What reserving a run of `count` hosts does: the run returned is the
/// lowest free one, and it is now taken; when there is none nothing changes.
pub open spec fn reserve_block_result(
    old: SubnetView,
    new: SubnetView,
    count: int,
    r: Option<Seq<u32>>,
) -> bool {
    &&& new.base == old.base
    &&& new.mask == old.mask
    &&& match r {
        Some(block) => exists|start: int|
            #![trigger block_at(old.base, start, count)]
            {
                &&& 0 <= start <= host_count(old.mask) - count
                &&& block == block_at(old.base, start, count)
                &&& block_free(old, start, count)
                &&& forall|s: int| 0 <= s < start ==> !#[trigger] block_free(old, s, count)
                &&& new.allocated == old.allocated + block.to_set()
            },
        None => {
            &&& forall|s: int|
                0 <= s <= host_count(old.mask) - count ==> !#[trigger] block_free(old, s, count)
            &&& new.allocated == old.allocated
        },
    }
}

/// What reserving one given address does.
pub open spec fn reserve_specific_result(old: SubnetView, new: SubnetView, ip: u32, r: bool) -> bool {
    &&& r == (in_subnet(old.base, old.mask, ip) && !old.allocated.contains(ip))
    &&& new == if r {
        SubnetView { allocated: old.allocated.insert(ip), ..old }
    } else {
        old
    }
}

impl Subnet {
    /// A subnet at `base` with prefix length `mask`, with nothing handed out.
    pub fn new(base: u32, mask: u8) -> (r: Self)
        ensures
            r@ == (SubnetView { base, mask, allocated: Set::empty() }),
    {
        Subnet { base, mask, allocated: BTreeSet::new() }
    }

    /// The number of host addresses.
    fn max_hosts(&self) -> (r: u32)
        requires
            1 <= self@.mask <= 31,
        ensures
            r == host_count(self@.mask),
    {
        let e: u32 = 32 - self.mask as u32;
        let mut p: u32 = 1;
        let mut k: u32 = 0;
        proof {
            lemma_two_pow_31();
        }
        while k < e
            invariant
                k <= e <= 31,
                p == two_pow(k as nat),
                two_pow(31) == 0x8000_0000,
            decreases e - k,
        {
            proof {
                lemma_two_pow_monotone((k + 1) as nat, 31);
            }
            p = p * 2;
            k += 1;
        }
        proof {
            lemma_two_pow_monotone(1, e as nat);
            assert(two_pow(1) == 2) by {
                reveal_with_fuel(two_pow, 2);
            }
        }
        p - 2
    }

    /// The address of host number `idx`.
    fn ip_from_index(&self, idx: u32) -> (r: u32)
        requires
            self@.base + idx + 1 <= u32::MAX,
        ensures
            r == host_at(self@.base, idx as int),
    {
        self.base + idx + 1
    }

    /// Hands out the lowest free host address, if there is one.
    pub fn allocate(&mut self) -> (r: Option<u32>)
        requires
            allocate_ok(old(self)@),
        ensures
            allocate_result(old(self)@, final(self)@, r),
    {
        let n = self.max_hosts();
        let mut i: u32 = 0;
        while i < n
            invariant
                i <= n,
                n == host_count(self@.mask),
                allocate_ok(self@),
                self@ == old(self)@,
                forall|j: int| 0 <= j < i ==> self@.allocated.contains(
                    #[trigger] host_at(self@.base, j),
                ),
            decreases n - i,
        {
            proof {
                if self@.base + host_count(self@.mask) > u32::MAX {
                    let j0 = choose|j: int|
                        0 <= j < host_count(self@.mask) && self@.base + j + 1 <= u32::MAX
                            && !self@.allocated.contains(#[trigger] host_at(self@.base, j));
                    assert(j0 >= i);
                }
            }
            let ip = self.ip_from_index(i);
            if !self.allocated.contains(&ip) {
                self.allocated.insert(ip);
                return Some(ip);
            }
            i += 1;
        }
        None
    }

    /// Takes `ip` back; whether it had been handed out.
    pub fn release(&mut self, ip: &u32) -> (r: bool)
        ensures
            r == old(self)@.allocated.contains(*ip),
            final(self)@ == (SubnetView { allocated: old(self)@.allocated.remove(*ip), ..old(self)@ }),
    {
        self.allocated.remove(ip)
    }

    /// Whether `ip` has been handed out.
    pub fn is_allocated(&self, ip: &u32) -> (r: bool)
        ensures
            r == self@.allocated.contains(*ip),
    {
        self.allocated.contains(ip)
    }

    /// Hands out the lowest run of `count` consecutive free host addresses.
    pub fn reserve_block(&mut self, count: u32) -> (r: Option<Vec<u32>>)
        requires
            reserve_block_ok(old(self)@, count as int),
        ensures
            reserve_block_result(
                old(self)@,
                final(self)@,
                count as int,
                match r {
                    Some(b) => Some(b@),
                    None => None,
                },
            ),
    {
        let n = self.max_hosts();
        let last = n - count;
        let mut start: u32 = 0;
        while start <= last
            invariant
                n == host_count(self@.mask),
                last == n - count,
                count <= n,
                reserve_block_ok(self@, count as int),
                self@ == old(self)@,
                forall|s: int| 0 <= s < start ==> !#[trigger] block_free(self@, s, count as int),
            ensures
                self@ == old(self)@,
                forall|s: int| 0 <= s <= last ==> !#[trigger] block_free(self@, s, count as int),
            decreases last + 1 - start,
        {
            proof {
                if self@.base + host_count(self@.mask) > u32::MAX {
                    let s0 = choose|st: int|
                        0 <= st <= host_count(self@.mask) - count && self@.base + st + count
                            <= u32::MAX && #[trigger] block_free(self@, st, count as int);
                    assert(s0 >= start);
                }
            }
            let mut free = true;
            let mut i: u32 = 0;
            while i < count
                invariant
                    i <= count,
                    start <= last,
                    last == n - count,
                    n == host_count(self@.mask),
                    self@.base + start + count <= u32::MAX,
                    free ==> forall|k: int| 0 <= k < i ==> !self@.allocated.contains(
                        #[trigger] host_at(self@.base, start + k),
                    ),
                    !free ==> !block_free(self@, start as int, count as int),
                ensures
                    free ==> block_free(self@, start as int, count as int),
                    !free ==> !block_free(self@, start as int, count as int),
                decreases count - i,
            {
                let ip = self.ip_from_index(start + i);
                if self.allocated.contains(&ip) {
                    free = false;
                    assert(!block_free(self@, start as int, count as int)) by {
                        assert(self@.allocated.contains(host_at(self@.base, start + i)));
                    }
                    break;
                }
                i += 1;
            }
            if free {
                let ghost before = self@.allocated;
                let mut block: Vec<u32> = Vec::new();
                let mut k: u32 = 0;
                while k < count
                    invariant
                        k <= count,
                        start <= last,
                        last == n - count,
                        n == host_count(self@.mask),
                        old(self)@.base + start + count <= u32::MAX,
                        self@.base == old(self)@.base,
                        self@.mask == old(self)@.mask,
                        block@ == block_at(self@.base, start as int, k as int),
                        self@.allocated == before + block@.to_set(),
                        before == old(self)@.allocated,
                        block_free(old(self)@, start as int, count as int),
                        forall|s: int|
                            0 <= s < start ==> !#[trigger] block_free(old(self)@, s, count as int),
                    decreases count - k,
                {
                    let ip = self.ip_from_index(start + k);
                    self.allocated.insert(ip);
                    let ghost b0 = block@;
                    block.push(ip);
                    proof {
                        assert(block@ == block_at(self@.base, start as int, k + 1));
                        assert(block@.to_set() == b0.to_set().insert(ip)) by {
                            broadcast use vstd::seq_lib::group_seq_properties;
                        }
                        assert(self@.allocated == before + block@.to_set());
                    }
                    k += 1;
                }
                assert(block_at(self@.base, start as int, count as int) == block@);
                assert(reserve_block_result(old(self)@, self@, count as int, Some(block@)));
                return Some(block);
            }
            if start == last {
                break;
            }
            start += 1;
        }
        None
    }

    /// Hands out `ip` itself, if it is a host address of the subnet and free.
    pub fn reserve_specific(&mut self, ip: u32) -> (r: bool)
        requires
            valid_subnet(old(self)@.base, old(self)@.mask),
        ensures
            reserve_specific_result(old(self)@, final(self)@, ip, r),
    {
        let last = self.base + self.max_hosts();
        if ip > self.base && ip <= last && !self.allocated.contains(&ip) {
            self.allocated.insert(ip);
            true
        } else {
            false
        }
    }

    /// Whether `ip` is a host address of the subnet.
    pub fn contains(&self, ip: &u32) -> (r: bool)
        requires
            valid_subnet(self@.base, self@.mask),
        ensures
            r == in_subnet(self@.base, self@.mask, *ip),
    {
        let last = self.base + self.max_hosts();
        *ip > self.base && *ip <= last
    }
}


/// The dotted-decimal text of an IPv4 address.
pub open spec fn ipv4_text(ip: u32) -> Seq<char> {
    decimal((ip / 16777216) as nat) + "."@ + decimal((ip / 65536 % 256) as nat) + "."@ + decimal(
        (ip / 256 % 256) as nat,
    ) + "."@ + decimal((ip % 256) as nat)
}

/// The dotted-decimal text of an IPv4 address.
pub fn ipv4_string(ip: u32) -> (r: String)
    ensures
        r@ == ipv4_text(ip),
{
    let mut s = decimal_string((ip / 16777216) as u64);
    s.append(".");
    s.append(decimal_string((ip / 65536 % 256) as u64).as_str());
    s.append(".");
    s.append(decimal_string((ip / 256 % 256) as u64).as_str());
    s.append(".");
    s.append(decimal_string((ip % 256) as u64).as_str());
    s
}

/// The key a subnet is filed under: `a.b.c.d/mask`.
pub open spec fn cidr_text(base: u32, mask: u8) -> Seq<char> {
    ipv4_text(base) + "/"@ + decimal(mask as nat)
}

/// The abstract state of a pool.
pub struct PoolView {
    pub hash: HashID,
    pub name: Seq<char>,
    pub domain: HashID,
    pub subnets: Seq<(Seq<char>, SubnetView)>,
}

/// A named pool of subnets of a domain, each filed under its CIDR text.
pub struct Pool {
    hash: HashID,
    name: String,
    domain: HashID,
    subnets: Vec<(String, Subnet)>,
}

/// Subnet entries as (key view, subnet view) pairs.
pub open spec fn subnet_views(v: Seq<(String, Subnet)>) -> Seq<(Seq<char>, SubnetView)> {
    v.map_values(|e: (String, Subnet)| (e.0@, e.1@))
}

/// Every key at most once.
pub open spec fn pool_ok(s: Seq<(Seq<char>, SubnetView)>) -> bool {
    forall|i: int, j: int| 0 <= i < j < s.len() ==> #[trigger] s[i].0 != #[trigger] s[j].0
}

/// The position of the subnet filed under `key`, if any.
pub open spec fn subnet_index(s: Seq<(Seq<char>, SubnetView)>, key: Seq<char>) -> Option<int> {
    if exists|i: int| 0 <= i < s.len() && s[i].0 == key {
        Some(choose|i: int| 0 <= i < s.len() && s[i].0 == key)
    } else {
        None
    }
}

/// The position of the first subnet (in filing order) where `ip` is taken.
pub open spec fn first_holding(s: Seq<(Seq<char>, SubnetView)>, ip: u32) -> Option<int> {
    if exists|i: int| 0 <= i < s.len() && s[i].1.allocated.contains(ip) {
        Some(
            choose|i: int|
                0 <= i < s.len() && s[i].1.allocated.contains(ip) && forall|j: int|
                    0 <= j < i ==> !(#[trigger] s[j].1.allocated.contains(ip)),
        )
    } else {
        None
    }
}

impl View for Pool {
    type V = PoolView;

    closed spec fn view(&self) -> PoolView {
        PoolView {
            hash: self.hash,
            name: self.name@,
            domain: self.domain,
            subnets: subnet_views(self.subnets@),
        }
    }
}

impl Pool {
    #[verifier::type_invariant]
    spec fn well_formed(self) -> bool {
        pool_ok(subnet_views(self.subnets@))
    }

    /// An empty pool `name` of the domain `domain`; the identifier is the
    /// hash of the name, `|` and the domain's hexadecimal identifier.
    pub fn new(name: &str, domain: &HashID) -> (r: Result<Self, Error>)
        ensures
            r matches Ok(p) && p@.name == name@ && p@.domain == *domain && p@.subnets.len() == 0
                && p@.hash@ == text_id(name@ + "|"@ + hex_of(*domain)),
    {
        let mut key = name.to_string();
        key.append("|");
        key.append(domain.as_hex().as_str());
        let hash = id_of_text(key.as_str());
        let p = Pool { hash, name: name.to_string(), domain: *domain, subnets: Vec::new() };
        assert(subnet_views(p.subnets@) =~= Seq::<(Seq<char>, SubnetView)>::empty());
        Ok(p)
    }

    fn find(&self, key: &str) -> (r: Option<usize>)
        ensures
            match r {
                Some(k) => k < self@.subnets.len() && self@.subnets[k as int].0 == key@
                    && subnet_index(self@.subnets, key@) == Some(k as int),
                None => subnet_index(self@.subnets, key@) is None,
            },
    {
        proof {
            use_type_invariant(self);
        }
        let ghost sv = self@.subnets;
        let mut i: usize = 0;
        while i < self.subnets.len()
            invariant
                i <= sv.len(),
                sv == subnet_views(self.subnets@),
                pool_ok(sv),
                forall|j: int| 0 <= j < i ==> sv[j].0 != key@,
            decreases sv.len() - i,
        {
            if str_eq(self.subnets[i].0.as_str(), key) {
                proof {
                    assert(sv[i as int].0 == key@);
                    lemma_index_unique(sv, i as int);
                }
                return Some(i);
            }
            i += 1;
        }
        None
    }

    /// Files a fresh subnet `base/mask`, replacing any subnet with that key.
    pub fn add_subnet(&mut self, base: u32, mask: u8)
        ensures
            final(self)@.hash == old(self)@.hash,
            final(self)@.name == old(self)@.name,
            final(self)@.domain == old(self)@.domain,
            subnet_index(final(self)@.subnets, cidr_text(base, mask)) is Some,
            final(self)@.subnets[subnet_index(final(self)@.subnets, cidr_text(base, mask))->0].1
                == (SubnetView { base, mask, allocated: Set::empty() }),
            forall|key: Seq<char>|
                key != cidr_text(base, mask) ==> #[trigger] subnet_index(final(self)@.subnets, key)
                    == subnet_index(old(self)@.subnets, key),
            forall|k: int|
                0 <= k < old(self)@.subnets.len() && old(self)@.subnets[k].0 != cidr_text(
                    base,
                    mask,
                ) ==> #[trigger] final(self)@.subnets[k] == old(self)@.subnets[k],
    {
        proof {
            use_type_invariant(&*self);
        }
        let mut key = ipv4_string(base);
        key.append("/");
        key.append(decimal_string(mask as u64).as_str());
        let found = self.find(key.as_str());
        let ghost s = self@.subnets;
        let mut subnets: Vec<(String, Subnet)> = Vec::new();
        std::mem::swap(&mut subnets, &mut self.subnets);
        let fresh = Subnet::new(base, mask);
        let ghost fv = fresh@;
        match found {
            Some(k) => {
                subnets.remove(k);
                subnets.insert(k, (key, fresh));
                proof {
                    let n = subnet_views(subnets@);
                    assert(n == s.update(k as int, (cidr_text(base, mask), fv)));
                    assert(pool_ok(n)) by {
                        assert forall|i: int, j: int| 0 <= i < j < n.len() implies #[trigger] n[i].0
                            != #[trigger] n[j].0 by {
                            assert(s[i].0 != s[j].0);
                        }
                    }
                    lemma_index_update(s, k as int, cidr_text(base, mask), fv);
                }
            },
            None => {
                subnets.push((key, fresh));
                proof {
                    let n = subnet_views(subnets@);
                    assert(n == s.push((cidr_text(base, mask), fv)));
                    assert(forall|i: int| 0 <= i < s.len() ==> s[i].0 != cidr_text(base, mask));
                    assert(pool_ok(n)) by {
                        assert forall|i: int, j: int| 0 <= i < j < n.len() implies #[trigger] n[i].0
                            != #[trigger] n[j].0 by {
                            if j < s.len() {
                                assert(s[i].0 != s[j].0);
                            }
                        }
                    }
                    lemma_index_push(s, cidr_text(base, mask), fv);
                }
            },
        }
        self.subnets = subnets;
    }

    /// Hands out the lowest free host of the subnet filed under `cidr`.
    pub fn allocate_from(&mut self, cidr: &str) -> (r: Option<u32>)
        requires
            subnet_index(old(self)@.subnets, cidr@) matches Some(k) ==> allocate_ok(
                old(self)@.subnets[k].1,
            ),
        ensures
            final(self)@.hash == old(self)@.hash,
            final(self)@.name == old(self)@.name,
            final(self)@.domain == old(self)@.domain,
            match subnet_index(old(self)@.subnets, cidr@) {
                Some(k) => allocate_result(old(self)@.subnets[k].1, final(self)@.subnets[k].1, r)
                    && final(self)@.subnets == old(self)@.subnets.update(
                    k,
                    (cidr@, final(self)@.subnets[k].1),
                ),
                None => r is None && final(self)@ == old(self)@,
            },
    {
        proof {
            use_type_invariant(&*self);
        }
        let k = match self.find(cidr) {
            Some(k) => k,
            None => return None,
        };
        let ghost s = self@.subnets;
        let mut subnets: Vec<(String, Subnet)> = Vec::new();
        std::mem::swap(&mut subnets, &mut self.subnets);
        let (key, mut sub) = subnets.remove(k);
        let r = sub.allocate();
        let ghost nv = sub@;
        subnets.insert(k, (key, sub));
        proof {
            let n = subnet_views(subnets@);
            assert(n == s.update(k as int, (cidr@, nv)));
            assert(pool_ok(n)) by {
                assert forall|i: int, j: int| 0 <= i < j < n.len() implies #[trigger] n[i].0
                    != #[trigger] n[j].0 by {
                    assert(s[i].0 != s[j].0);
                }
            }
        }
        self.subnets = subnets;
        r
    }

    /// Takes `ip` back from the first subnet that had handed it out; whether
    /// one had.
    pub fn release(&mut self, ip: &u32) -> (r: bool)
        ensures
            final(self)@.hash == old(self)@.hash,
            final(self)@.name == old(self)@.name,
            final(self)@.domain == old(self)@.domain,
            match first_holding(old(self)@.subnets, *ip) {
                Some(k) => r && final(self)@.subnets == old(self)@.subnets.update(
                    k,
                    (
                        old(self)@.subnets[k].0,
                        SubnetView {
                            allocated: old(self)@.subnets[k].1.allocated.remove(*ip),
                            ..old(self)@.subnets[k].1
                        },
                    ),
                ),
                None => !r && final(self)@ == old(self)@,
            },
    {
        proof {
            use_type_invariant(&*self);
        }
        let ghost s = self@.subnets;
        let mut i: usize = 0;
        while i < self.subnets.len()
            invariant
                i <= s.len(),
                s == subnet_views(self.subnets@),
                s == old(self)@.subnets,
                self@ == old(self)@,
                pool_ok(s),
                forall|j: int| 0 <= j < i ==> !(#[trigger] s[j].1.allocated.contains(*ip)),
            decreases s.len() - i,
        {
            if self.subnets[i].1.is_allocated(ip) {
                let mut subnets: Vec<(String, Subnet)> = Vec::new();
                std::mem::swap(&mut subnets, &mut self.subnets);
                let (key, mut sub) = subnets.remove(i);
                let released = sub.release(ip);
                let ghost nv = sub@;
                subnets.insert(i, (key, sub));
                proof {
                    let n = subnet_views(subnets@);
                    assert(n == s.update(i as int, (s[i as int].0, nv)));
                    assert(pool_ok(n)) by {
                        assert forall|a: int, b: int| 0 <= a < b < n.len() implies #[trigger] n[a].0
                            != #[trigger] n[b].0 by {
                            assert(s[a].0 != s[b].0);
                        }
                    }
                    let c = choose|c: int|
                        0 <= c < s.len() && s[c].1.allocated.contains(*ip) && forall|j: int|
                            0 <= j < c ==> !(#[trigger] s[j].1.allocated.contains(*ip));
                    assert(s[i as int].1.allocated.contains(*ip));
                    if c < i {
                    } else if c > i {
                        assert(!s[i as int].1.allocated.contains(*ip));
                    }
                }
                self.subnets = subnets;
                return released;
            }
            i += 1;
        }
        false
    }

    /// Whether some subnet has handed out `ip`.
    pub fn is_allocated(&self, ip: &u32) -> (r: bool)
        ensures
            r == exists|k: int|
                0 <= k < self@.subnets.len() && #[trigger] self@.subnets[k].1.allocated.contains(*ip),
    {
        let ghost s = self@.subnets;
        let mut i: usize = 0;
        while i < self.subnets.len()
            invariant
                i <= s.len(),
                s == subnet_views(self.subnets@),
                s == self@.subnets,
                forall|j: int| 0 <= j < i ==> !(#[trigger] s[j].1.allocated.contains(*ip)),
            decreases s.len() - i,
        {
            if self.subnets[i].1.is_allocated(ip) {
                assert(self@.subnets[i as int].1.allocated.contains(*ip));
                return true;
            }
            i += 1;
        }
        false
    }

    /// Hands out the lowest run of `count` free hosts of the subnet filed
    /// under `cidr`.
    pub fn reserve_block(&mut self, cidr: &str, count: u32) -> (r: Option<Vec<u32>>)
        requires
            subnet_index(old(self)@.subnets, cidr@) matches Some(k) ==> reserve_block_ok(
                old(self)@.subnets[k].1,
                count as int,
            ),
        ensures
            final(self)@.hash == old(self)@.hash,
            final(self)@.name == old(self)@.name,
            final(self)@.domain == old(self)@.domain,
            match subnet_index(old(self)@.subnets, cidr@) {
                Some(k) => reserve_block_result(
                    old(self)@.subnets[k].1,
                    final(self)@.subnets[k].1,
                    count as int,
                    match r {
                        Some(b) => Some(b@),
                        None => None,
                    },
                ) && final(self)@.subnets == old(self)@.subnets.update(
                    k,
                    (cidr@, final(self)@.subnets[k].1),
                ),
                None => r is None && final(self)@ == old(self)@,
            },
    {
        proof {
            use_type_invariant(&*self);
        }
        let k = match self.find(cidr) {
            Some(k) => k,
            None => return None,
        };
        let ghost s = self@.subnets;
        let mut subnets: Vec<(String, Subnet)> = Vec::new();
        std::mem::swap(&mut subnets, &mut self.subnets);
        let (key, mut sub) = subnets.remove(k);
        let r = sub.reserve_block(count);
        let ghost nv = sub@;
        subnets.insert(k, (key, sub));
        proof {
            let n = subnet_views(subnets@);
            assert(n == s.update(k as int, (cidr@, nv)));
            assert(pool_ok(n)) by {
                assert forall|i: int, j: int| 0 <= i < j < n.len() implies #[trigger] n[i].0
                    != #[trigger] n[j].0 by {
                    assert(s[i].0 != s[j].0);
                }
            }
        }
        self.subnets = subnets;
        r
    }

    /// Hands out `ip` from the subnet filed under `cidr`, if it is a free host
    /// of it; false when there is no such subnet.
    pub fn reserve_specific(&mut self, cidr: &str, ip: u32) -> (r: bool)
        requires
            subnet_index(old(self)@.subnets, cidr@) matches Some(k) ==> valid_subnet(
                old(self)@.subnets[k].1.base,
                old(self)@.subnets[k].1.mask,
            ),
        ensures
            final(self)@.hash == old(self)@.hash,
            final(self)@.name == old(self)@.name,
            final(self)@.domain == old(self)@.domain,
            match subnet_index(old(self)@.subnets, cidr@) {
                Some(k) => reserve_specific_result(
                    old(self)@.subnets[k].1,
                    final(self)@.subnets[k].1,
                    ip,
                    r,
                ) && final(self)@.subnets == old(self)@.subnets.update(
                    k,
                    (cidr@, final(self)@.subnets[k].1),
                ),
                None => !r && final(self)@ == old(self)@,
            },
    {
        proof {
            use_type_invariant(&*self);
        }
        let k = match self.find(cidr) {
            Some(k) => k,
            None => return false,
        };
        let ghost s = self@.subnets;
        let mut subnets: Vec<(String, Subnet)> = Vec::new();
        std::mem::swap(&mut subnets, &mut self.subnets);
        let (key, mut sub) = subnets.remove(k);
        let r = sub.reserve_specific(ip);
        let ghost nv = sub@;
        subnets.insert(k, (key, sub));
        proof {
            let n = subnet_views(subnets@);
            assert(n == s.update(k as int, (cidr@, nv)));
            assert(pool_ok(n)) by {
                assert forall|i: int, j: int| 0 <= i < j < n.len() implies #[trigger] n[i].0
                    != #[trigger] n[j].0 by {
                    assert(s[i].0 != s[j].0);
                }
            }
        }
        self.subnets = subnets;
        r
    }

    /// Whether `ip` is a host address of some subnet of the pool.
    pub fn contains(&self, ip: &u32) -> (r: bool)
        requires
            forall|k: int|
                0 <= k < self@.subnets.len() ==> valid_subnet(
                    #[trigger] self@.subnets[k].1.base,
                    self@.subnets[k].1.mask,
                ),
        ensures
            r == exists|k: int|
                0 <= k < self@.subnets.len() && #[trigger] in_subnet(
                    self@.subnets[k].1.base,
                    self@.subnets[k].1.mask,
                    *ip,
                ),
    {
        proof {
            use_type_invariant(self);
        }
        let ghost s = self@.subnets;
        let mut i: usize = 0;
        while i < self.subnets.len()
            invariant
                i <= s.len(),
                s == subnet_views(self.subnets@),
                s == self@.subnets,
                forall|k: int| 0 <= k < s.len() ==> valid_subnet(#[trigger] s[k].1.base, s[k].1.mask),
                forall|j: int| 0 <= j < i ==> !#[trigger] in_subnet(s[j].1.base, s[j].1.mask, *ip),
            decreases s.len() - i,
        {
            assert(valid_subnet(s[i as int].1.base, s[i as int].1.mask));
            if self.subnets[i].1.contains(ip) {
                assert(in_subnet(
                    self@.subnets[i as int].1.base,
                    self@.subnets[i as int].1.mask,
                    *ip,
                ));
                return true;
            }
            i += 1;
        }
        false
    }
}

/// A handed-out address is a host of the subnet, is taken afterwards, and
/// releasing it again frees exactly it: release undoes allocate.
pub proof fn law_release_undoes_allocate(old: SubnetView, new: SubnetView, ip: u32)
    requires
        allocate_result(old, new, Some(ip)),
    ensures
        in_subnet(new.base, new.mask, ip),
        new.allocated.contains(ip),
        new.allocated.remove(ip) == old.allocated,
{
    assert(new.allocated.remove(ip) =~= old.allocated);
}

/// Two allocations in a row never hand out the same address.
pub proof fn law_allocations_distinct(
    s0: SubnetView,
    s1: SubnetView,
    s2: SubnetView,
    a: u32,
    b: u32,
)
    requires
        allocate_result(s0, s1, Some(a)),
        allocate_result(s1, s2, Some(b)),
    ensures
        a != b,
{
}

/// Allocation hands out hosts in increasing order from an empty subnet: the
/// first allocation of a fresh subnet is its first host.
pub proof fn law_first_allocation(s0: SubnetView, s1: SubnetView, a: u32)
    requires
        s0.allocated == Set::<u32>::empty(),
        allocate_result(s0, s1, Some(a)),
    ensures
        a == host_at(s0.base, 0),
{
    if a != host_at(s0.base, 0) {
        assert(s0.allocated.contains(host_at(s0.base, 0)));
    }
}

/// Reserving a specific free host and then releasing it restores the subnet.
pub proof fn law_release_undoes_reserve(old: SubnetView, new: SubnetView, ip: u32)
    requires
        reserve_specific_result(old, new, ip, true),
    ensures
        new.allocated.contains(ip),
        new.allocated.remove(ip) == old.allocated,
{
    assert(new.allocated.remove(ip) =~= old.allocated);
}

proof fn lemma_index_unique(s: Seq<(Seq<char>, SubnetView)>, i: int)
    requires
        pool_ok(s),
        0 <= i < s.len(),
    ensures
        subnet_index(s, s[i].0) == Some(i),
{
    let key = s[i].0;
    assert(0 <= i < s.len() && s[i].0 == key);
    let c = choose|c: int| 0 <= c < s.len() && s[c].0 == key;
    if c != i {
        if c < i {
            assert(s[c].0 != s[i].0);
        } else {
            assert(s[i].0 != s[c].0);
        }
    }
}

proof fn lemma_index_none(s: Seq<(Seq<char>, SubnetView)>, key: Seq<char>)
    requires
        forall|i: int| 0 <= i < s.len() ==> s[i].0 != key,
    ensures
        subnet_index(s, key) is None,
{
}

proof fn lemma_index_update(
    s: Seq<(Seq<char>, SubnetView)>,
    k: int,
    key: Seq<char>,
    v: SubnetView,
)
    requires
        pool_ok(s),
        pool_ok(s.update(k, (key, v))),
        0 <= k < s.len(),
        s[k].0 == key,
    ensures
        subnet_index(s.update(k, (key, v)), key) == Some(k),
        forall|other: Seq<char>|
            other != key ==> #[trigger] subnet_index(s.update(k, (key, v)), other)
                == subnet_index(s, other),
{
    let n = s.update(k, (key, v));
    lemma_index_unique(n, k);
    assert forall|other: Seq<char>| other != key implies #[trigger] subnet_index(n, other)
        == subnet_index(s, other) by {
        if exists|i: int| 0 <= i < s.len() && s[i].0 == other {
            let i = choose|i: int| 0 <= i < s.len() && s[i].0 == other;
            assert(i != k);
            assert(n[i] == s[i]);
            lemma_index_unique(s, i);
            lemma_index_unique(n, i);
        } else {
            assert forall|i: int| 0 <= i < n.len() implies n[i].0 != other by {
                if i != k {
                    assert(n[i] == s[i]);
                }
            }
            lemma_index_none(n, other);
        }
    }
}

proof fn lemma_index_push(s: Seq<(Seq<char>, SubnetView)>, key: Seq<char>, v: SubnetView)
    requires
        pool_ok(s),
        pool_ok(s.push((key, v))),
        forall|i: int| 0 <= i < s.len() ==> s[i].0 != key,
    ensures
        subnet_index(s.push((key, v)), key) == Some(s.len() as int),
        forall|other: Seq<char>|
            other != key ==> #[trigger] subnet_index(s.push((key, v)), other) == subnet_index(
                s,
                other,
            ),
{
    let n = s.push((key, v));
    lemma_index_unique(n, s.len() as int);
    assert forall|other: Seq<char>| other != key implies #[trigger] subnet_index(n, other)
        == subnet_index(s, other) by {
        if exists|i: int| 0 <= i < s.len() && s[i].0 == other {
            let i = choose|i: int| 0 <= i < s.len() && s[i].0 == other;
            assert(n[i] == s[i]);
            lemma_index_unique(s, i);
            lemma_index_unique(n, i);
        } else {
            assert forall|i: int| 0 <= i < n.len() implies n[i].0 != other by {
                if i < s.len() {
                    assert(n[i] == s[i]);
                }
            }
            lemma_index_none(n, other);
        }
    }
}

} // verus!
