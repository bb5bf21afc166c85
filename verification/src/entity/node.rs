//! Nodes: hosts that belong to a domain, with what discovery learned of them.
use vstd::prelude::*;
use vstd::string::*;

use crate::address::{is_ip_text, is_ipv6_address, is_ipv6_text};
use crate::entity::domain::opt_view;
use crate::text::{str_eq, sort_strings, sorted_texts};
use crate::entity::{hex_of, id_of_text, text_id, HashID};
use crate::error::Error;
use crate::index::{Index, Item, ItemView};
use crate::text::{
    chars_of, dash, decimal, decimal_string, display_or_dash, is_blank, is_blank_str, join_sep,
    join_strings, signed_decimal, signed_decimal_string, string_from_chars, string_views,
    push_char,
};
use crate::Indexable;

verus! {

/// Operating system information.
pub struct OsInfo {
    pub os_type: String,
    pub arch: String,
}

/// Hardware information.
pub struct HardwareInfo {
    pub cpu_model: String,
    pub cpu_cores: usize,
    pub total_memory_gb: u64,
    pub memory_modules: Option<Vec<MemoryModule>>,
    pub storage: Option<Vec<StorageDevice>>,
}

/// One memory module.
pub struct MemoryModule {
    pub label: String,
    pub size: u64,
    pub model: Option<String>,
    pub speed_mhz: Option<u64>,
    pub manufacturer: Option<String>,
}

/// One storage device.
pub struct StorageDevice {
    pub model: String,
    pub size: u64,
}

/// One network interface and the identifiers of its IP addresses.
pub struct NetworkInterface {
    pub name: String,
    pub mac: Option<String>,
    pub ips: Vec<HashID>,
}

/// Network information.
pub struct NetworkInfo {
    pub interfaces: Vec<NetworkInterface>,
}

/// A host of a domain, identified by the hash of its hostname and domain.
pub struct Node {
    pub hash: HashID,
    pub hostname: String,
    pub domain: HashID,
    pub description: Option<String>,
    pub os_info: Option<OsInfo>,
    pub hardware: Option<HardwareInfo>,
    pub network: Option<NetworkInfo>,
    pub created_at: Option<i64>,
    pub last_seen: Option<i64>,
    pub environment: Option<String>,
    pub tags: Option<Vec<String>>,
}

/// The text whose hash identifies the node `hostname` of domain `domain`.
pub open spec fn node_key(hostname: Seq<char>, domain: HashID) -> Seq<char> {
    hostname + "|"@ + hex_of(domain)
}

/// The tags joined by `", "`, or nothing when there are none.
pub open spec fn tags_text(tags: Option<Vec<String>>) -> Seq<char> {
    match tags {
        Some(v) => join_sep(string_views(v@), ", "@),
        None => Seq::empty(),
    }
}

/// The date and time, in UTC, of a Unix timestamp as `YYYY-MM-DD HH:MM:SS`,
/// when the timestamp is in the representable range.
pub uninterp spec fn utc_timestamp_text(secs: i64) -> Option<Seq<char>>;

/// Formats a Unix timestamp as a UTC date and time, by `chrono`.
#[verifier::external_body]
fn format_utc_timestamp(secs: i64) -> (r: Option<String>)
    ensures
        match r {
            Some(s) => utc_timestamp_text(secs) == Some(s@),
            None => utc_timestamp_text(secs) is None,
        },
{
    match chrono::DateTime::from_timestamp(secs, 0) {
        Some(t) => Some(t.format("%Y-%m-%d %H:%M:%S").to_string()),
        None => None,
    }
}

/// The current Unix time in seconds: the system clock read by
/// `std::time::SystemTime::now`, converted by chrono's
/// `From<SystemTime> for DateTime<Utc>`, which gives times before 1970 as
/// negative numbers. Nothing is stated of the value, which depends on the
/// clock. chrono still panics when the clock lies outside the years it
/// represents (about 262,000 years either side of 1970).
#[verifier::external_body]
pub(crate) fn unix_now() -> (r: i64) {
    chrono::DateTime::<chrono::Utc>::from(std::time::SystemTime::now()).timestamp()
}

/// How the last-seen time is shown: its UTC date and time, the raw number
/// when it is out of range, nothing when it is unknown.
pub open spec fn last_seen_text(last_seen: Option<i64>) -> Seq<char> {
    match last_seen {
        Some(x) => match utc_timestamp_text(x) {
            Some(t) => t,
            None => signed_decimal(x as int),
        },
        None => Seq::empty(),
    }
}

impl Node {
    /// A node called `hostname` in the domain `domain`. The hostname must not
    /// be blank and must fit in 255 bytes; the identifier is the hash of the
    /// hostname, `|` and the domain's hexadecimal identifier.
    pub fn new(hostname: &str, domain: &HashID) -> (r: Result<Self, Error>)
        ensures
            is_blank(hostname@) ==> r matches Err(Error::EmptyHostname),
            !is_blank(hostname@) && hostname.len() > 255 ==> (r matches Err(
                Error::HostnameTooLong { len },
            ) && len == hostname.len()),
            !is_blank(hostname@) && hostname.len() <= 255 ==> (r matches Ok(n) && n.hostname@
                == hostname@ && n.domain == *domain && n.hash@ == text_id(
                node_key(hostname@, *domain),
            ) && n.is_bare()),
    {
        if is_blank_str(hostname) {
            return Err(Error::EmptyHostname);
        }
        if hostname.len() > 255 {
            return Err(Error::HostnameTooLong { len: hostname.len() });
        }
        let mut key = hostname.to_string();
        key.append("|");
        key.append(domain.as_hex().as_str());
        let hash = id_of_text(key.as_str());
        Ok(Self {
            hash,
            hostname: hostname.to_string(),
            domain: *domain,
            description: None,
            os_info: None,
            hardware: None,
            network: None,
            created_at: None,
            last_seen: None,
            environment: None,
            tags: None,
        })
    }

    /// No field beyond the identity is set.
    pub open spec fn is_bare(&self) -> bool {
        &&& self.description is None
        &&& self.os_info is None
        &&& self.hardware is None
        &&& self.network is None
        &&& self.created_at is None
        &&& self.last_seen is None
        &&& self.environment is None
        &&& self.tags is None
    }

    /// The node with its environment set to `env`.
    pub fn with_environment(self, env: &str) -> (r: Self)
        ensures
            opt_view(r.environment) == Some(env@),
            r == (Node { environment: r.environment, ..self }),
    {
        let mut n = self;
        n.environment = Some(env.to_string());
        n
    }

    /// The node with its tags set to `tags`.
    pub fn with_tags(self, tags: Vec<String>) -> (r: Self)
        ensures
            r == (Node { tags: Some(tags), ..self }),
    {
        let mut n = self;
        n.tags = Some(tags);
        n
    }

    /// The tags joined by `", "`; empty when there are none.
    pub fn tags(&self) -> (r: String)
        ensures
            r@ == tags_text(self.tags),
    {
        match &self.tags {
            Some(v) => join_strings(v, ", "),
            None => String::new(),
        }
    }

    /// Records that the node was seen now.
    pub fn heartbeat(&mut self)
        ensures
            final(self).last_seen is Some,
            *final(self) == (Node { last_seen: final(self).last_seen, ..*old(self) }),
    {
        self.last_seen = Some(unix_now());
    }

    /// The last-seen time as UTC `YYYY-MM-DD HH:MM:SS`; the raw number when
    /// out of range; empty when unknown.
    pub fn last_seen(&self) -> (r: String)
        ensures
            r@ == last_seen_text(self.last_seen),
    {
        match self.last_seen {
            Some(x) => match format_utc_timestamp(x) {
                Some(t) => t,
                None => signed_decimal_string(x),
            },
            None => String::new(),
        }
    }
}

impl Indexable for Node {
    fn index(&self) -> (r: Result<Index, Error>)
        ensures
            r matches Ok(ix) && ix@ == seq![
                ItemView { kind: "hostname"@, key: self.hostname@, values: seq![self.hash] },
            ],
    {
        let mut index = Index::new();
        match Item::new("hostname", self.hostname.as_str(), &self.hash) {
            Ok(item) => index.push(item),
            Err(e) => return Err(e),
        }
        Ok(index)
    }
}

/// The first position of `c` in `s`, if any.
pub open spec fn first_index_of(s: Seq<char>, c: char) -> Option<int> {
    if exists|i: int| 0 <= i < s.len() && s[i] == c {
        Some(
            choose|i: int| 0 <= i < s.len() && s[i] == c && forall|j: int| 0 <= j < i ==> s[j] != c,
        )
    } else {
        None
    }
}

/// A fully qualified name split at its first dot into host and domain; the
/// domain is empty when there is no dot.
pub open spec fn split_fqdn(fqdn: Seq<char>) -> (Seq<char>, Seq<char>) {
    match first_index_of(fqdn, '.') {
        Some(i) => (fqdn.take(i), fqdn.skip(i + 1)),
        None => (fqdn, Seq::empty()),
    }
}

/// Splits a fully qualified host name at its first dot into (host, domain).
pub fn get_host_info(fqdn: &str) -> (r: (String, String))
    ensures
        (r.0@, r.1@) == split_fqdn(fqdn@),
{
    let cs = chars_of(fqdn);
    let mut i: usize = 0;
    while i < cs.len() && cs[i] != '.'
        invariant
            i <= cs@.len(),
            cs@ == fqdn@,
            forall|j: int| 0 <= j < i ==> cs@[j] != '.',
        decreases cs@.len() - i,
    {
        i += 1;
    }
    let mut host: Vec<char> = Vec::new();
    let mut k: usize = 0;
    while k < i
        invariant
            k <= i <= cs@.len(),
            host@ == cs@.take(k as int),
        decreases i - k,
    {
        host.push(cs[k]);
        k += 1;
        assert(cs@.take(k as int) == cs@.take(k - 1).push(cs@[k - 1]));
    }
    let mut domain: Vec<char> = Vec::new();
    if i < cs.len() {
        let mut m: usize = i + 1;
        while m < cs.len()
            invariant
                i < m <= cs@.len(),
                domain@ == cs@.subrange(i + 1, m as int),
            decreases cs@.len() - m,
        {
            domain.push(cs[m]);
            m += 1;
        }
        assert(first_index_of(fqdn@, '.') == Some(i as int)) by {
            assert(fqdn@[i as int] == '.');
            let c = choose|c: int|
                0 <= c < fqdn@.len() && fqdn@[c] == '.' && forall|j: int|
                    0 <= j < c ==> fqdn@[j] != '.';
            assert(!(c < i));
            assert(!(c > i));
        }
        assert(domain@ == fqdn@.skip(i + 1));
    } else {
        assert(cs@.take(i as int) == cs@);
    }
    (string_from_chars(&host), string_from_chars(&domain))
}


/// A node as shown in listings: every field as text.
pub struct NodeView {
    pub hash: String,
    pub hostname: String,
    pub domain: String,
    pub os: String,
    pub specs: String,
    pub ips: String,
    pub environment: String,
    pub tags: String,
}

/// `"<type> (<arch>)"`, or a dash when unknown.
pub open spec fn os_text(os: Option<OsInfo>) -> Seq<char> {
    match os {
        Some(o) => o.os_type@ + " ("@ + o.arch@ + ")"@,
        None => dash(),
    }
}

/// The sum of the devices' sizes, in bytes.
pub open spec fn total_size(ds: Seq<StorageDevice>) -> nat
    decreases ds.len(),
{
    if ds.len() == 0 {
        0
    } else {
        total_size(ds.drop_last()) + ds.last().size as nat
    }
}

/// The total disk size in whole GiB, or a dash when unknown.
pub open spec fn storage_text(st: Option<Vec<StorageDevice>>) -> Seq<char> {
    match st {
        Some(v) => decimal(total_size(v@) / 1024 / 1024 / 1024) + "GB Disk"@,
        None => dash(),
    }
}

/// `"<cores>c / <ram>GB RAM / <disk>"`, or a dash when unknown.
pub open spec fn specs_text(hw: Option<HardwareInfo>) -> Seq<char> {
    match hw {
        Some(h) => decimal(h.cpu_cores as nat) + "c / "@ + decimal(h.total_memory_gb as nat)
            + "GB RAM / "@ + storage_text(h.storage),
        None => dash(),
    }
}

/// The disk sizes of the node's hardware add up within 64 bits.
pub open spec fn sizes_fit(hw: Option<HardwareInfo>) -> bool {
    match hw {
        Some(h) => match h.storage {
            Some(v) => total_size(v@) <= u64::MAX,
            None => true,
        },
        None => true,
    }
}

/// The addresses of one family (IPv6 when `v6`, else all others), in their
/// original order.
pub open spec fn of_family(s: Seq<Seq<char>>, v6: bool) -> Seq<Seq<char>>
    decreases s.len(),
{
    if s.len() == 0 {
        Seq::empty()
    } else {
        let r = of_family(s.drop_last(), v6);
        if is_ipv6_text(s.last()) == v6 {
            r.push(s.last())
        } else {
            r
        }
    }
}

/// IPv4 addresses first, then IPv6, each family in its original order.
pub open spec fn by_family(s: Seq<Seq<char>>) -> Seq<Seq<char>> {
    of_family(s, false) + of_family(s, true)
}

/// At most three addresses joined by `", "`, then how many more there are;
/// a dash when there is none.
pub open spec fn ips_summary(ips: Seq<Seq<char>>) -> Seq<char> {
    if ips.len() == 0 {
        dash()
    } else if ips.len() > 3 {
        join_sep(ips.take(3), ", "@) + ", +"@ + decimal((ips.len() - 3) as nat) + " more"@
    } else {
        join_sep(ips, ", "@)
    }
}

fn sum_sizes(v: &Vec<StorageDevice>) -> (r: u64)
    requires
        total_size(v@) <= u64::MAX,
    ensures
        r == total_size(v@),
{
    let mut total: u64 = 0;
    let mut i: usize = 0;
    while i < v.len()
        invariant
            i <= v@.len(),
            total_size(v@) <= u64::MAX,
            total == total_size(v@.take(i as int)),
        decreases v@.len() - i,
    {
        proof {
            lemma_total_size_prefix(v@, i + 1);
            assert(v@.take(i + 1).drop_last() == v@.take(i as int));
        }
        total = total + v[i].size;
        i += 1;
    }
    assert(v@.take(v@.len() as int) == v@);
    total
}

proof fn lemma_total_size_prefix(v: Seq<StorageDevice>, k: int)
    requires
        0 <= k <= v.len(),
    ensures
        total_size(v.take(k)) <= total_size(v),
    decreases v.len() - k,
{
    if k < v.len() {
        lemma_total_size_prefix(v, k + 1);
        assert(v.take(k + 1).drop_last() == v.take(k));
    } else {
        assert(v.take(k) == v);
    }
}

/// The addresses ordered IPv4 first, then IPv6, each family in input order;
/// text that is no IPv6 address counts as IPv4.
pub fn order_by_family(addresses: &Vec<String>) -> (r: Vec<String>)
    ensures
        string_views(r@) == by_family(string_views(addresses@)),
{
    let ghost a = string_views(addresses@);
    let mut v4: Vec<String> = Vec::new();
    let mut v6: Vec<String> = Vec::new();
    let mut i: usize = 0;
    while i < addresses.len()
        invariant
            i <= addresses@.len(),
            a == string_views(addresses@),
            string_views(v4@) == of_family(a.take(i as int), false),
            string_views(v6@) == of_family(a.take(i as int), true),
        decreases addresses@.len() - i,
    {
        let ghost t = a.take(i + 1);
        assert(t.drop_last() == a.take(i as int));
        assert(t.last() == addresses@[i as int]@);
        let ghost b4 = string_views(v4@);
        let ghost b6 = string_views(v6@);
        let addr = addresses[i].clone();
        if is_ipv6_address(addresses[i].as_str()) {
            v6.push(addr);
            assert(string_views(v6@) == b6.push(addresses@[i as int]@));
        } else {
            v4.push(addr);
            assert(string_views(v4@) == b4.push(addresses@[i as int]@));
        }
        i += 1;
    }
    assert(a.take(addresses@.len() as int) == a);
    let ghost b4 = string_views(v4@);
    let ghost b6 = string_views(v6@);
    let mut v6m = v6;
    v4.append(&mut v6m);
    assert(string_views(v4@) == b4 + b6);
    v4
}

/// The addresses, IPv4 first, joined by single spaces; every address must be
/// a valid IP address.
pub fn ips_line(addresses: &Vec<String>) -> (r: String)
    requires
        forall|i: int| 0 <= i < addresses@.len() ==> is_ip_text(#[trigger] addresses@[i]@),
    ensures
        r@ == join_sep(by_family(string_views(addresses@)), " "@),
{
    let ordered = order_by_family(addresses);
    join_strings(&ordered, " ")
}

fn ips_summary_exec(ips: &Vec<String>) -> (r: String)
    ensures
        r@ == ips_summary(string_views(ips@)),
{
    if ips.len() == 0 {
        return display_or_dash(String::new());
    }
    if ips.len() > 3 {
        let mut first: Vec<String> = Vec::new();
        first.push(ips[0].clone());
        first.push(ips[1].clone());
        first.push(ips[2].clone());
        assert(string_views(first@) == string_views(ips@).take(3));
        let mut s = join_strings(&first, ", ");
        s.append(", +");
        let more = decimal_string((ips.len() - 3) as u64);
        s.append(more.as_str());
        s.append(" more");
        s
    } else {
        join_strings(ips, ", ")
    }
}

impl NodeView {
    /// The listing form of a node, given its domain's name and its IP
    /// addresses.
    pub fn from_parts(n: &Node, domain_name: String, addresses: &Vec<String>) -> (r: Self)
        requires
            sizes_fit(n.hardware),
        ensures
            r.hash@ == hex_of(n.hash),
            r.hostname@ == n.hostname@,
            r.domain@ == domain_name@,
            r.os@ == os_text(n.os_info),
            r.specs@ == specs_text(n.hardware),
            r.ips@ == ips_summary(by_family(string_views(addresses@))),
            r.environment@ == match n.environment {
                Some(e) => e@,
                None => dash(),
            },
            r.tags@ == if tags_text(n.tags).len() == 0 {
                dash()
            } else {
                tags_text(n.tags)
            },
    {
        let ordered = order_by_family(addresses);
        let ips = ips_summary_exec(&ordered);
        let os = match &n.os_info {
            Some(o) => {
                let mut t = o.os_type.clone();
                t.append(" (");
                t.append(o.arch.as_str());
                t.append(")");
                t
            },
            None => display_or_dash(String::new()),
        };
        let specs = match &n.hardware {
            Some(h) => {
                let storage = match &h.storage {
                    Some(v) => {
                        let total = sum_sizes(v);
                        let mut t = decimal_string(total / 1024 / 1024 / 1024);
                        t.append("GB Disk");
                        t
                    },
                    None => display_or_dash(String::new()),
                };
                let mut t = decimal_string(h.cpu_cores as u64);
                t.append("c / ");
                t.append(decimal_string(h.total_memory_gb).as_str());
                t.append("GB RAM / ");
                t.append(storage.as_str());
                t
            },
            None => display_or_dash(String::new()),
        };
        let environment = match &n.environment {
            Some(e) => e.clone(),
            None => display_or_dash(String::new()),
        };
        let tags = n.tags();
        let tags = if tags.as_str().is_empty() {
            display_or_dash(String::new())
        } else {
            tags
        };
        NodeView {
            hash: n.hash.as_hex(),
            hostname: n.hostname.clone(),
            domain: domain_name,
            os,
            specs,
            ips,
            environment,
            tags,
        }
    }
}


/// A disk as reported by the system: name, total and available bytes.
pub open spec fn disk_views(v: Seq<(String, u64, u64)>) -> Seq<(Seq<char>, u64, u64)> {
    v.map_values(|d: (String, u64, u64)| (d.0@, d.1, d.2))
}

/// The entries in order, each kept only at its first occurrence.
pub open spec fn first_occurrences(s: Seq<(Seq<char>, u64, u64)>) -> Seq<(Seq<char>, u64, u64)>
    decreases s.len(),
{
    if s.len() == 0 {
        Seq::empty()
    } else {
        let r = first_occurrences(s.drop_last());
        if s.drop_last().contains(s.last()) {
            r
        } else {
            r.push(s.last())
        }
    }
}

/// Storage devices as (model, size) views.
pub open spec fn device_views(v: Seq<StorageDevice>) -> Seq<(Seq<char>, u64)> {
    v.map_values(|d: StorageDevice| (d.model@, d.size))
}

/// The (name, total) of each distinct disk, in order of first occurrence.
pub open spec fn distinct_devices(disks: Seq<(Seq<char>, u64, u64)>) -> Seq<(Seq<char>, u64)> {
    first_occurrences(disks).map_values(|d: (Seq<char>, u64, u64)| (d.0, d.1))
}

fn contains_disk(v: &Vec<(String, u64, u64)>, upto: usize, d: &(String, u64, u64)) -> (r: bool)
    requires
        upto <= v@.len(),
    ensures
        r == disk_views(v@).take(upto as int).contains((d.0@, d.1, d.2)),
{
    let ghost dv = disk_views(v@).take(upto as int);
    let mut i: usize = 0;
    while i < upto
        invariant
            i <= upto <= v@.len(),
            dv == disk_views(v@).take(upto as int),
            forall|j: int| 0 <= j < i ==> dv[j] != (d.0@, d.1, d.2),
        decreases upto - i,
    {
        if v[i].1 == d.1 && v[i].2 == d.2 && v[i].0 == d.0 {
            assert(dv[i as int] == (d.0@, d.1, d.2));
            return true;
        }
        i += 1;
    }
    false
}

impl Node {
    /// Stores what discovery learned of the host: OS, hardware (each distinct
    /// disk once, memory in whole GiB), network interfaces, and the time `now`
    /// as last seen (and as created, when that was not set yet).
    pub fn set_host_info(
        &mut self,
        os_type: String,
        arch: String,
        cpu_brand: Option<String>,
        cpu_cores: usize,
        total_memory: u64,
        disks: &Vec<(String, u64, u64)>,
        interfaces: Vec<NetworkInterface>,
        now: i64,
    )
        ensures
            final(self).os_info matches Some(o) && o.os_type@ == os_type@ && o.arch@ == arch@,
            final(self).hardware matches Some(h) && {
                &&& h.cpu_model@ == match cpu_brand {
                    Some(b) => b@,
                    None => "Unknown CPU"@,
                }
                &&& h.cpu_cores == cpu_cores
                &&& h.total_memory_gb == total_memory / 1024 / 1024 / 1024
                &&& h.memory_modules is None
                &&& h.storage matches Some(st) && device_views(st@) == distinct_devices(
                    disk_views(disks@),
                )
            },
            final(self).network == Some(NetworkInfo { interfaces }),
            final(self).created_at == match old(self).created_at {
                Some(c) => Some(c),
                None => Some(now),
            },
            final(self).last_seen == Some(now),
            final(self).hash == old(self).hash,
            final(self).hostname == old(self).hostname,
            final(self).domain == old(self).domain,
            final(self).description == old(self).description,
            final(self).environment == old(self).environment,
            final(self).tags == old(self).tags,
    {
        self.os_info = Some(OsInfo { os_type, arch });
        let mut storage: Vec<StorageDevice> = Vec::new();
        let ghost dv = disk_views(disks@);
        let mut i: usize = 0;
        while i < disks.len()
            invariant
                i <= disks@.len(),
                dv == disk_views(disks@),
                device_views(storage@) == distinct_devices(dv.take(i as int)),
            decreases disks@.len() - i,
        {
            let ghost t = dv.take(i + 1);
            assert(t.drop_last() == dv.take(i as int));
            assert(t.last() == dv[i as int]);
            let ghost before = device_views(storage@);
            if !contains_disk(disks, i, &disks[i]) {
                storage.push(StorageDevice { model: disks[i].0.clone(), size: disks[i].1 });
                assert(device_views(storage@) == before.push((dv[i as int].0, dv[i as int].1)));
                assert(first_occurrences(t) == first_occurrences(dv.take(i as int)).push(
                    dv[i as int],
                ));
            }
            i += 1;
        }
        assert(dv.take(disks@.len() as int) == dv);
        self.network = Some(NetworkInfo { interfaces });
        let cpu_model = match cpu_brand {
            Some(b) => b,
            None => "Unknown CPU".to_string(),
        };
        self.hardware = Some(
            HardwareInfo {
                cpu_model,
                cpu_cores,
                total_memory_gb: total_memory / 1024 / 1024 / 1024,
                memory_modules: None,
                storage: Some(storage),
            },
        );
        if self.created_at.is_none() {
            self.created_at = Some(now);
        }
        self.last_seen = Some(now);
    }
}


/// Pairs of strings as pairs of views.
pub open spec fn pair_views(v: Seq<(String, String)>) -> Seq<(Seq<char>, Seq<char>)> {
    v.map_values(|p: (String, String)| (p.0@, p.1@))
}

/// The short hash in square brackets.
pub open spec fn decorated(h: HashID) -> Seq<char> {
    seq!['['] + hex_of(h).take(8) + seq![']']
}

/// The OS row of a node card, if the OS is known.
pub open spec fn os_rows(os: Option<OsInfo>) -> Seq<(Seq<char>, Seq<char>)> {
    match os {
        Some(o) => seq![("OS"@, o.os_type@ + " ("@ + o.arch@ + ")"@)],
        None => Seq::empty(),
    }
}

/// One storage row per disk; `sizes` holds each disk's size text.
pub open spec fn storage_rows(st: Option<Vec<StorageDevice>>, sizes: Seq<Seq<char>>) -> Seq<
    (Seq<char>, Seq<char>),
> {
    match st {
        Some(v) => Seq::new(
            v@.len(),
            |i: int| ("Storage"@, v@[i].model@ + " ("@ + sizes[i] + " GB)"@),
        ),
        None => Seq::empty(),
    }
}

/// The CPU, RAM and storage rows of a node card, if the hardware is known.
pub open spec fn hardware_rows(hw: Option<HardwareInfo>, sizes: Seq<Seq<char>>) -> Seq<
    (Seq<char>, Seq<char>),
> {
    match hw {
        Some(h) => seq![
            ("CPU"@, h.cpu_model@ + " ("@ + decimal(h.cpu_cores as nat) + " cores)"@),
            ("RAM"@, decimal(h.total_memory_gb as nat) + " GB RAM"@),
        ] + storage_rows(h.storage, sizes),
        None => Seq::empty(),
    }
}

/// The environment row of a node card, if it is set.
pub open spec fn environment_rows(env: Option<String>) -> Seq<(Seq<char>, Seq<char>)> {
    match env {
        Some(e) => seq![("Environment"@, e@)],
        None => Seq::empty(),
    }
}

/// The tags row of a node card, if there are tags.
pub open spec fn tag_rows(tags: Option<Vec<String>>) -> Seq<(Seq<char>, Seq<char>)> {
    match tags {
        Some(t) => if t@.len() > 0 {
            seq![("Tags"@, join_sep(string_views(t@), ", "@))]
        } else {
            Seq::empty()
        },
        None => Seq::empty(),
    }
}

/// The (property, value) rows of a node card.
pub open spec fn card_rows(n: Node, sizes: Seq<Seq<char>>) -> Seq<(Seq<char>, Seq<char>)> {
    seq![
        ("Hostname"@, n.hostname@),
        ("Domain"@, decorated(n.domain)),
        ("Node Hash"@, hex_of(n.hash)),
    ] + os_rows(n.os_info) + hardware_rows(n.hardware, sizes) + environment_rows(n.environment)
        + tag_rows(n.tags)
}

/// The number of disks the node's hardware lists.
pub open spec fn disk_count(hw: Option<HardwareInfo>) -> nat {
    match hw {
        Some(h) => match h.storage {
            Some(v) => v@.len(),
            None => 0,
        },
        None => 0,
    }
}

/// Whether an interface is worth showing: it has addresses, or a MAC
/// address that is neither empty nor all zeros.
pub open spec fn is_active_interface(i: NetworkInterface) -> bool {
    ||| i.ips@.len() > 0
    ||| (i.mac matches Some(m) && m@ != "00:00:00:00:00:00"@ && m@.len() > 0)
}

/// An interface that has an address is active, whatever its MAC address;
/// one with a real MAC address (neither empty nor all zeros) is active too;
/// an inactive one has no address.
pub proof fn law_interfaces_with_addresses_are_active(i: NetworkInterface)
    ensures
        i.ips@.len() > 0 ==> is_active_interface(i),
        (i.mac matches Some(m) && m@ != "00:00:00:00:00:00"@ && m@.len() > 0) ==> is_active_interface(i),
        !is_active_interface(i) ==> i.ips@.len() == 0,
{
}

/// Every interface that has an address gets a row among the active
/// interfaces, with its name, its MAC text and its addresses; every name
/// listed as inactive is that of an interface without addresses.
pub proof fn law_addresses_are_shown(s: Seq<NetworkInterface>)
    ensures
        forall|k: int|
            0 <= k < s.len() && (#[trigger] s[k]).ips@.len() > 0 ==> active_rows(s).contains(
                (s[k].name@, mac_text(s[k]), interface_ips_text(s[k])),
            ),
        forall|j: int|
            0 <= j < inactive_names(s).len() ==> exists|k: int|
                0 <= k < s.len() && (#[trigger] s[k]).ips@.len() == 0 && s[k].name@
                    == #[trigger] inactive_names(s)[j],
    decreases s.len(),
{
    if s.len() > 0 {
        let p = s.drop_last();
        law_addresses_are_shown(p);
        let r = active_rows(p);
        let n = inactive_names(p);
        assert forall|k: int|
            0 <= k < s.len() && (#[trigger] s[k]).ips@.len() > 0 implies active_rows(s).contains(
            (s[k].name@, mac_text(s[k]), interface_ips_text(s[k])),
        ) by {
            if k < p.len() {
                assert(s[k] == p[k]);
                let x = (p[k].name@, mac_text(p[k]), interface_ips_text(p[k]));
                assert(r.contains(x));
                let m = choose|m: int| 0 <= m < r.len() && r[m] == x;
                if is_active_interface(s.last()) {
                    assert(active_rows(s)[m] == x);
                }
            } else {
                assert(s[k] == s.last());
                assert(active_rows(s)[r.len() as int] == (
                    s[k].name@,
                    mac_text(s[k]),
                    interface_ips_text(s[k]),
                ));
            }
        }
        assert forall|j: int| 0 <= j < inactive_names(s).len() implies exists|k: int|
            0 <= k < s.len() && (#[trigger] s[k]).ips@.len() == 0 && s[k].name@
                == #[trigger] inactive_names(s)[j] by {
            if j < n.len() {
                let k = choose|k: int|
                    0 <= k < p.len() && (#[trigger] p[k]).ips@.len() == 0 && p[k].name@ == n[j];
                assert(s[k] == p[k]);
                assert(inactive_names(s)[j] == n[j]);
            } else {
                assert(!is_active_interface(s.last()));
                assert(inactive_names(s)[j] == s.last().name@);
                assert(s[s.len() - 1] == s.last());
            }
        }
    }
}

/// The MAC address of an interface as shown, with a placeholder when unknown.
pub open spec fn mac_text(i: NetworkInterface) -> Seq<char> {
    match i.mac {
        Some(m) => m@,
        None => "No MAC"@,
    }
}

/// The decorated short hashes of an interface's addresses, or a dash.
pub open spec fn interface_ips_text(i: NetworkInterface) -> Seq<char> {
    if i.ips@.len() == 0 {
        dash()
    } else {
        join_sep(i.ips@.map_values(|h: HashID| decorated(h)), ", "@)
    }
}

/// The (name, MAC, addresses) rows of the active interfaces, in order.
pub open spec fn active_rows(s: Seq<NetworkInterface>) -> Seq<(Seq<char>, Seq<char>, Seq<char>)>
    decreases s.len(),
{
    if s.len() == 0 {
        Seq::empty()
    } else {
        let r = active_rows(s.drop_last());
        if is_active_interface(s.last()) {
            r.push((s.last().name@, mac_text(s.last()), interface_ips_text(s.last())))
        } else {
            r
        }
    }
}

/// The names of the inactive interfaces, in order.
pub open spec fn inactive_names(s: Seq<NetworkInterface>) -> Seq<Seq<char>>
    decreases s.len(),
{
    if s.len() == 0 {
        Seq::empty()
    } else {
        let r = inactive_names(s.drop_last());
        if is_active_interface(s.last()) {
            r
        } else {
            r.push(s.last().name@)
        }
    }
}

/// Triples of strings as triples of views.
pub open spec fn triple_views(v: Seq<(String, String, String)>) -> Seq<
    (Seq<char>, Seq<char>, Seq<char>),
> {
    v.map_values(|t: (String, String, String)| (t.0@, t.1@, t.2@))
}

impl NetworkInterface {
    /// Whether the interface has addresses or a real MAC address.
    pub fn is_active(&self) -> (r: bool)
        ensures
            r == is_active_interface(*self),
    {
        if self.ips.len() > 0 {
            return true;
        }
        match &self.mac {
            Some(m) => !str_eq(m.as_str(), "00:00:00:00:00:00") && !m.as_str().is_empty(),
            None => false,
        }
    }

    /// The decorated short hashes of the addresses, or a dash.
    pub fn ips_text(&self) -> (r: String)
        ensures
            r@ == interface_ips_text(*self),
    {
        if self.ips.len() == 0 {
            return display_or_dash(String::new());
        }
        let mut parts: Vec<String> = Vec::new();
        let mut i: usize = 0;
        while i < self.ips.len()
            invariant
                i <= self.ips@.len(),
                string_views(parts@) == self.ips@.take(i as int).map_values(
                    |h: HashID| decorated(h),
                ),
            decreases self.ips@.len() - i,
        {
            let ghost before = string_views(parts@);
            parts.push(self.ips[i].short_hash_decorated());
            assert(string_views(parts@) == before.push(decorated(self.ips@[i as int])));
            assert(self.ips@.take(i + 1).map_values(|h: HashID| decorated(h)) == self.ips@.take(
                i as int,
            ).map_values(|h: HashID| decorated(h)).push(decorated(self.ips@[i as int])));
            i += 1;
        }
        assert(self.ips@.take(self.ips@.len() as int) == self.ips@);
        join_strings(&parts, ", ")
    }
}

impl Node {
    /// The title of the node card: its description, or else its hostname.
    pub fn card_title(&self) -> (r: String)
        ensures
            r@ == "\u{1f5b3}  NODE CARD: "@ + match self.description {
                Some(d) => d@,
                None => self.hostname@,
            },
    {
        let mut t = "\u{1f5b3}  NODE CARD: ".to_string();
        match &self.description {
            Some(d) => t.append(d.as_str()),
            None => t.append(self.hostname.as_str()),
        }
        t
    }

    /// The (property, value) rows of the node card; `disk_sizes[i]` is the
    /// size text of the i-th disk.
    pub fn card_properties(&self, disk_sizes: &Vec<String>) -> (r: Vec<(String, String)>)
        requires
            disk_sizes@.len() == disk_count(self.hardware),
        ensures
            pair_views(r@) == card_rows(*self, string_views(disk_sizes@)),
    {
        let ghost sizes = string_views(disk_sizes@);
        let mut rows: Vec<(String, String)> = Vec::new();
        rows.push(("Hostname".to_string(), self.hostname.clone()));
        rows.push(("Domain".to_string(), self.domain.short_hash_decorated()));
        rows.push(("Node Hash".to_string(), self.hash.as_hex()));
        let ghost base = pair_views(rows@);
        assert(base == seq![
            ("Hostname"@, self.hostname@),
            ("Domain"@, decorated(self.domain)),
            ("Node Hash"@, hex_of(self.hash)),
        ]);
        if let Some(o) = &self.os_info {
            let mut v = o.os_type.clone();
            v.append(" (");
            v.append(o.arch.as_str());
            v.append(")");
            rows.push(("OS".to_string(), v));
        }
        let ghost after_os = pair_views(rows@);
        assert(after_os == base + os_rows(self.os_info));
        if let Some(h) = &self.hardware {
            let mut cpu = h.cpu_model.clone();
            cpu.append(" (");
            cpu.append(decimal_string(h.cpu_cores as u64).as_str());
            cpu.append(" cores)");
            rows.push(("CPU".to_string(), cpu));
            let mut ram = decimal_string(h.total_memory_gb);
            ram.append(" GB RAM");
            rows.push(("RAM".to_string(), ram));
            let ghost mid = pair_views(rows@);
            if let Some(st) = &h.storage {
                let mut i: usize = 0;
                while i < st.len()
                    invariant
                        i <= st@.len(),
                        st@.len() == disk_sizes@.len(),
                        sizes == string_views(disk_sizes@),
                        pair_views(rows@) == mid + Seq::new(
                            i as nat,
                            |k: int| ("Storage"@, st@[k].model@ + " ("@ + sizes[k] + " GB)"@),
                        ),
                    decreases st@.len() - i,
                {
                    let ghost before = pair_views(rows@);
                    let mut v = st[i].model.clone();
                    v.append(" (");
                    v.append(disk_sizes[i].as_str());
                    v.append(" GB)");
                    rows.push(("Storage".to_string(), v));
                    proof {
                        let row = ("Storage"@, st@[i as int].model@ + " ("@ + sizes[i as int]
                            + " GB)"@);
                        assert(pair_views(rows@) == before.push(row));
                        assert(Seq::new(
                            (i + 1) as nat,
                            |k: int| ("Storage"@, st@[k].model@ + " ("@ + sizes[k] + " GB)"@),
                        ) == Seq::new(
                            i as nat,
                            |k: int| ("Storage"@, st@[k].model@ + " ("@ + sizes[k] + " GB)"@),
                        ).push(row));
                    }
                    i += 1;
                }
            }
        }
        let ghost after_hw = pair_views(rows@);
        assert(after_hw == after_os + hardware_rows(self.hardware, sizes));
        if let Some(e) = &self.environment {
            rows.push(("Environment".to_string(), e.clone()));
        }
        let ghost after_env = pair_views(rows@);
        assert(after_env == after_hw + environment_rows(self.environment));
        if let Some(t) = &self.tags {
            if t.len() > 0 {
                rows.push(("Tags".to_string(), join_strings(t, ", ")));
            }
        }
        assert(pair_views(rows@) == after_env + tag_rows(self.tags));
        rows
    }

    /// The rows of the active interfaces (name, MAC, addresses), in order,
    /// and the names of the inactive ones, sorted.
    pub fn interface_summary(&self) -> (r: (Vec<(String, String, String)>, Vec<String>))
        ensures
            match self.network {
                Some(net) => {
                    &&& triple_views(r.0@) == active_rows(net.interfaces@)
                    &&& sorted_texts(string_views(r.1@))
                    &&& string_views(r.1@).to_multiset() == inactive_names(
                        net.interfaces@,
                    ).to_multiset()
                },
                None => r.0@.len() == 0 && r.1@.len() == 0,
            },
    {
        let mut active: Vec<(String, String, String)> = Vec::new();
        let mut inactive: Vec<String> = Vec::new();
        match &self.network {
            Some(net) => {
                let ifs = &net.interfaces;
                let mut i: usize = 0;
                while i < ifs.len()
                    invariant
                        i <= ifs@.len(),
                        triple_views(active@) == active_rows(ifs@.take(i as int)),
                        string_views(inactive@) == inactive_names(ifs@.take(i as int)),
                    decreases ifs@.len() - i,
                {
                    let ghost t = ifs@.take(i + 1);
                    assert(t.drop_last() == ifs@.take(i as int));
                    assert(t.last() == ifs@[i as int]);
                    let ghost ba = triple_views(active@);
                    let ghost bi = string_views(inactive@);
                    let itf = &ifs[i];
                    if itf.is_active() {
                        let mac = match &itf.mac {
                            Some(m) => m.clone(),
                            None => "No MAC".to_string(),
                        };
                        active.push((itf.name.clone(), mac, itf.ips_text()));
                        assert(triple_views(active@) == ba.push(
                            (itf.name@, mac_text(*itf), interface_ips_text(*itf)),
                        ));
                    } else {
                        inactive.push(itf.name.clone());
                        assert(string_views(inactive@) == bi.push(itf.name@));
                    }
                    i += 1;
                }
                assert(ifs@.take(ifs@.len() as int) == ifs@);
                let sorted = sort_strings(inactive);
                (active, sorted)
            },
            None => (active, inactive),
        }
    }
}

/// The domains of the nodes, each once, in order of first appearance.
pub open spec fn domains_in_order(nodes: Seq<Node>) -> Seq<HashID>
    decreases nodes.len(),
{
    if nodes.len() == 0 {
        Seq::empty()
    } else {
        let r = domains_in_order(nodes.drop_last());
        if r.contains(nodes.last().domain) {
            r
        } else {
            r.push(nodes.last().domain)
        }
    }
}

/// The nodes of domain `d`, in their original order.
pub open spec fn nodes_of_domain(nodes: Seq<Node>, d: HashID) -> Seq<Node>
    decreases nodes.len(),
{
    if nodes.len() == 0 {
        Seq::empty()
    } else {
        let r = nodes_of_domain(nodes.drop_last(), d);
        if nodes.last().domain == d {
            r.push(nodes.last())
        } else {
            r
        }
    }
}

fn find_id(v: &Vec<HashID>, x: &HashID) -> (r: Option<usize>)
    ensures
        match r {
            Some(k) => k < v@.len() && v@[k as int] == *x,
            None => !v@.contains(*x),
        },
{
    let mut i: usize = 0;
    while i < v.len()
        invariant
            i <= v@.len(),
            forall|j: int| 0 <= j < i ==> v@[j] != *x,
        decreases v@.len() - i,
    {
        if v[i].same_as(x) {
            return Some(i);
        }
        i += 1;
    }
    None
}

/// Groups nodes by domain: one group per domain, in order of the domain's
/// first appearance, each holding that domain's nodes in their order.
pub fn group_by_domain(nodes: Vec<Node>) -> (r: (Vec<HashID>, Vec<Vec<Node>>))
    ensures
        r.0@ == domains_in_order(nodes@),
        r.1@.len() == r.0@.len(),
        forall|k: int| 0 <= k < r.1@.len() ==> (#[trigger] r.1@[k])@ == nodes_of_domain(
            nodes@,
            r.0@[k],
        ),
{
    let ghost all = nodes@;
    let total = nodes.len();
    let mut rest = nodes;
    let mut keys: Vec<HashID> = Vec::new();
    let mut groups: Vec<Vec<Node>> = Vec::new();
    let mut i: usize = 0;
    assert(all.skip(0) == all);
    while rest.len() > 0
        invariant
            i + rest@.len() == all.len(),
            total == all.len(),
            rest@ == all.skip(i as int),
            keys@ == domains_in_order(all.take(i as int)),
            groups@.len() == keys@.len(),
            forall|k: int| 0 <= k < groups@.len() ==> (#[trigger] groups@[k])@ == nodes_of_domain(
                all.take(i as int),
                keys@[k],
            ),
        decreases rest@.len(),
    {
        let node = rest.remove(0);
        let ghost pre = all.take(i as int);
        let ghost post = all.take(i + 1);
        assert(node == all[i as int]);
        assert(post.drop_last() == pre);
        assert(post.last() == node);
        let ghost old_groups = groups@;
        let ghost old_keys = keys@;
        match find_id(&keys, &node.domain) {
            Some(k) => {
                let mut g = groups.remove(k);
                g.push(node);
                groups.insert(k, g);
                assert forall|m: int| 0 <= m < groups@.len() implies (#[trigger] groups@[m])@
                    == nodes_of_domain(post, keys@[m]) by {
                    if m != k {
                        assert(groups@[m] == old_groups[m]);
                        assert(keys@[m] != keys@[k as int]) by {
                            lemma_distinct_domains(pre);
                        }
                    }
                }
            },
            None => {
                let d = node.domain;
                let mut g: Vec<Node> = Vec::new();
                g.push(node);
                keys.push(d);
                groups.push(g);
                assert forall|m: int| 0 <= m < groups@.len() implies (#[trigger] groups@[m])@
                    == nodes_of_domain(post, keys@[m]) by {
                    if m < old_groups.len() {
                        assert(groups@[m] == old_groups[m]);
                        assert(keys@[m] == old_keys[m]);
                        assert(old_keys.contains(keys@[m]));
                    } else {
                        lemma_no_nodes_of_absent_domain(pre, d);
                        assert(nodes_of_domain(pre, d) =~= Seq::<Node>::empty());
                    }
                }
            },
        }
        i += 1;
        assert(rest@ == all.skip(i as int));
    }
    assert(all.take(all.len() as int) == all);
    (keys, groups)
}

proof fn lemma_distinct_domains(nodes: Seq<Node>)
    ensures
        domains_in_order(nodes).no_duplicates(),
    decreases nodes.len(),
{
    if nodes.len() > 0 {
        lemma_distinct_domains(nodes.drop_last());
    }
}

proof fn lemma_no_nodes_of_absent_domain(nodes: Seq<Node>, d: HashID)
    requires
        !domains_in_order(nodes).contains(d),
    ensures
        nodes_of_domain(nodes, d).len() == 0,
    decreases nodes.len(),
{
    if nodes.len() > 0 {
        let r = domains_in_order(nodes.drop_last());
        if r.contains(nodes.last().domain) {
            assert(nodes.last().domain != d);
        } else {
            assert(domains_in_order(nodes) == r.push(nodes.last().domain));
            assert(domains_in_order(nodes)[r.len() as int] == nodes.last().domain);
            assert forall|x: HashID| r.contains(x) implies domains_in_order(nodes).contains(x) by {
                let j = choose|j: int| 0 <= j < r.len() && r[j] == x;
                assert(domains_in_order(nodes)[j] == x);
            }
        }
        lemma_no_nodes_of_absent_domain(nodes.drop_last(), d);
    }
}

} // verus!
