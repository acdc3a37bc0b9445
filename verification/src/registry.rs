//! The domain-certificate registry: a state machine over a map from domain
//! names to certificates and a reverse index from IP addresses to the
//! certificates that point at them. Registration, modification and removal
//! validate every field, authenticate the sender, and keep the two structures
//! consistent; domains are folded to lowercase before storage and lookup.

use vstd::prelude::*;

use crate::util::bytes_vec_eq;
use crate::util::lower_bytes;
use crate::util::to_lowercase_bytes;
use crate::validation::domain_is_valid;
use crate::validation::info_is_valid;
use crate::validation::ip_is_valid;
use crate::validation::key_is_valid;
use crate::validation::name_is_valid;
use crate::validation::valid_domain;
use crate::validation::valid_info;
use crate::validation::valid_ip;
use crate::validation::valid_key;
use crate::validation::valid_name;

verus! {

/// The version written into every live certificate.
pub const CERTIFICATE_VERSION: i32 = 1;

/// A registry record binding a domain to its owner, display name, IP address,
/// metadata and public key.
#[derive(Debug)]
pub struct Certificate {
    pub version_number: i32,
    pub owner_id: u64,
    pub name: Vec<u8>,
    pub info: Vec<u8>,
    pub key: Vec<u8>,
    pub ip_addr: Vec<u8>,
    pub domain: Vec<u8>,
}

/// The mathematical content of a certificate.
pub struct CertData {
    pub version_number: int,
    pub owner_id: u64,
    pub name: Seq<u8>,
    pub info: Seq<u8>,
    pub key: Seq<u8>,
    pub ip_addr: Seq<u8>,
    pub domain: Seq<u8>,
}

impl View for Certificate {
    type V = CertData;

    open spec fn view(&self) -> CertData {
        CertData {
            version_number: self.version_number as int,
            owner_id: self.owner_id,
            name: self.name@,
            info: self.info@,
            key: self.key@,
            ip_addr: self.ip_addr@,
            domain: self.domain@,
        }
    }
}

/// The record that a lookup of an unregistered domain returns: version 0 and
/// every field empty.
pub open spec fn empty_cert_data() -> CertData {
    CertData {
        version_number: 0,
        owner_id: 0,
        name: Seq::empty(),
        info: Seq::empty(),
        key: Seq::empty(),
        ip_addr: Seq::empty(),
        domain: Seq::empty(),
    }
}

impl Certificate {
    /// An owned copy of the certificate.
    pub fn duplicate(&self) -> (r: Certificate)
        ensures
            r@ == self@,
    {
        Certificate {
            version_number: self.version_number,
            owner_id: self.owner_id,
            name: crate::util::slice_to_vec_u8(self.name.as_slice()),
            info: crate::util::slice_to_vec_u8(self.info.as_slice()),
            key: crate::util::slice_to_vec_u8(self.key.as_slice()),
            ip_addr: crate::util::slice_to_vec_u8(self.ip_addr.as_slice()),
            domain: crate::util::slice_to_vec_u8(self.domain.as_slice()),
        }
    }
}

impl PartialEq for Certificate {
    fn eq(&self, other: &Certificate) -> (r: bool) {
        let r = self.version_number == other.version_number && self.owner_id == other.owner_id
            && bytes_vec_eq(&self.name, &other.name) && bytes_vec_eq(&self.info, &other.info)
            && bytes_vec_eq(&self.key, &other.key) && bytes_vec_eq(&self.ip_addr, &other.ip_addr)
            && bytes_vec_eq(&self.domain, &other.domain);
        r
    }
}

impl vstd::std_specs::cmp::PartialEqSpecImpl for Certificate {
    open spec fn obeys_eq_spec() -> bool {
        true
    }

    open spec fn eq_spec(&self, other: &Certificate) -> bool {
        self@ == other@
    }
}

impl Eq for Certificate {}

/// The sender of a registry operation: either an authenticated account or an
/// unsigned request.
#[derive(Clone, Copy, PartialEq, Eq, Structural)]
pub enum Origin {
    Signed(u64),
    Unsigned,
}

impl Origin {
    /// An origin signed by the given account.
    pub fn signed(id: u64) -> (r: Origin)
        ensures
            r == Origin::Signed(id),
    {
        Origin::Signed(id)
    }

    /// An unsigned origin.
    pub fn none() -> (r: Origin)
        ensures
            r == Origin::Unsigned,
    {
        Origin::Unsigned
    }
}

/// Why a registry operation was rejected. `BadOrigin` is the authentication
/// failure; the others report invalid fields or conflicts with current state.
#[derive(Clone, Copy, Debug, PartialEq, Eq, Structural)]
pub enum Error {
    BadOrigin,
    InvalidOwner,
    InvalidDomain,
    InvalidIP,
    InvalidInfo,
    InvalidKey,
    DomainAlreadyTaken,
    NonexistentDomain,
    DifferentOwner,
    NoModifications,
}

/// A record of a successful registry operation.
pub enum Event {
    CertificateRegistered(Certificate, u64),
    CertificateModified(Certificate, Certificate, u64),
    CertificateRemoved(Certificate, u64),
}

/// The mathematical content of an event.
pub enum EventData {
    Registered(CertData, u64),
    Modified(CertData, CertData, u64),
    Removed(CertData, u64),
}

impl View for Event {
    type V = EventData;

    open spec fn view(&self) -> EventData {
        match self {
            Event::CertificateRegistered(c, who) => EventData::Registered(c@, *who),
            Event::CertificateModified(c, old_c, who) => EventData::Modified(c@, old_c@, *who),
            Event::CertificateRemoved(c, who) => EventData::Removed(c@, *who),
        }
    }
}

/// One bucket of the reverse index: the certificates whose `ip_addr` is `ip`.
pub struct IpBucket {
    pub ip: Vec<u8>,
    pub certs: Vec<Certificate>,
}

/// The first certificate with the given domain, if any.
pub open spec fn spec_find_cert(ds: Seq<CertData>, domain: Seq<u8>) -> Option<CertData>
    decreases ds.len(),
{
    if ds.len() == 0 {
        None
    } else if ds[0].domain == domain {
        Some(ds[0])
    } else {
        spec_find_cert(ds.drop_first(), domain)
    }
}

/// The position of the bucket for `ip`, or `-1` if there is none.
pub open spec fn bucket_index(bs: Seq<IpBucket>, ip: Seq<u8>) -> int
    decreases bs.len(),
{
    if bs.len() == 0 {
        -1
    } else if bs[0].ip@ == ip {
        0
    } else {
        let r = bucket_index(bs.drop_first(), ip);
        if r == -1 {
            -1
        } else {
            r + 1
        }
    }
}

/// The certificates that the reverse index lists for `ip`.
pub open spec fn spec_by_ip(bs: Seq<IpBucket>, ip: Seq<u8>) -> Seq<CertData> {
    let i = bucket_index(bs, ip);
    if i == -1 {
        Seq::empty()
    } else {
        bs[i].certs@.map_values(|c: Certificate| c@)
    }
}

pub proof fn lemma_bucket_index(bs: Seq<IpBucket>, ip: Seq<u8>)
    ensures
        -1 <= bucket_index(bs, ip) < bs.len(),
        bucket_index(bs, ip) >= 0 ==> bs[bucket_index(bs, ip)].ip@ == ip,
        bucket_index(bs, ip) == -1 ==> forall|j: int| 0 <= j < bs.len() ==> bs[j].ip@ != ip,
        forall|j: int| 0 <= j < bucket_index(bs, ip) ==> bs[j].ip@ != ip,
    decreases bs.len(),
{
    if bs.len() > 0 && bs[0].ip@ != ip {
        lemma_bucket_index(bs.drop_first(), ip);
        assert forall|j: int| 0 <= j < bs.len() && (bucket_index(bs, ip) == -1 || j < bucket_index(
            bs,
            ip,
        )) implies bs[j].ip@ != ip by {
            if j > 0 {
                assert(bs.drop_first()[j - 1].ip@ == bs[j].ip@);
            }
        }
    }
}

/// The characterization of `spec_find_cert` by a witness position.
pub proof fn lemma_find_cert_at(ds: Seq<CertData>, domain: Seq<u8>, k: int)
    requires
        0 <= k < ds.len(),
        ds[k].domain == domain,
        forall|j: int| 0 <= j < k ==> ds[j].domain != domain,
    ensures
        spec_find_cert(ds, domain) == Some(ds[k]),
    decreases ds.len(),
{
    if k > 0 {
        lemma_find_cert_at(ds.drop_first(), domain, k - 1);
    }
}

pub proof fn lemma_find_cert_none(ds: Seq<CertData>, domain: Seq<u8>)
    requires
        forall|j: int| 0 <= j < ds.len() ==> ds[j].domain != domain,
    ensures
        spec_find_cert(ds, domain) is None,
    decreases ds.len(),
{
    if ds.len() > 0 {
        lemma_find_cert_none(ds.drop_first(), domain);
    }
}

/// Whatever `spec_find_cert` returns is a record at some position, the first
/// with its domain.
pub proof fn lemma_find_cert_witness(ds: Seq<CertData>, domain: Seq<u8>)
    requires
        spec_find_cert(ds, domain) is Some,
    ensures
        exists|k: int|
            0 <= k < ds.len() && ds[k] == spec_find_cert(ds, domain)->0 && ds[k].domain == domain
                && (forall|j: int| 0 <= j < k ==> ds[j].domain != domain),
    decreases ds.len(),
{
    if ds.len() > 0 && ds[0].domain != domain {
        lemma_find_cert_witness(ds.drop_first(), domain);
        let k0 = choose|k: int|
            0 <= k < ds.drop_first().len() && ds.drop_first()[k] == spec_find_cert(
                ds.drop_first(),
                domain,
            )->0 && ds.drop_first()[k].domain == domain && (forall|j: int|
                0 <= j < k ==> ds.drop_first()[j].domain != domain);
        assert forall|j: int| 0 <= j < k0 + 1 && j > 0 implies ds[j].domain != domain by {
            assert(ds.drop_first()[j - 1].domain != domain);
        }
        assert(0 <= k0 + 1 < ds.len() && ds[k0 + 1] == spec_find_cert(ds, domain)->0 && ds[k0
            + 1].domain == domain && (forall|j: int| 0 <= j < k0 + 1 ==> ds[j].domain != domain));
    }
}

/// The registry: the certificate map, its reverse index, and the events that
/// successful operations have emitted, newest last.
pub struct Registry {
    certs: Vec<Certificate>,
    reverse: Vec<IpBucket>,
    events: Vec<Event>,
}

impl Registry {
    /// The records of the registry, in insertion order.
    pub closed spec fn certs_data(&self) -> Seq<CertData> {
        self.certs@.map_values(|c: Certificate| c@)
    }

    /// The events emitted so far, oldest first.
    pub closed spec fn events_data(&self) -> Seq<EventData> {
        self.events@.map_values(|e: Event| e@)
    }

    /// The reverse-index listing for `ip`.
    pub closed spec fn by_ip(&self, ip: Seq<u8>) -> Seq<CertData> {
        spec_by_ip(self.reverse@, ip)
    }

    /// The record stored under a domain, if any.
    pub closed spec fn lookup(&self, domain: Seq<u8>) -> Option<CertData> {
        spec_find_cert(self.certs_data(), domain)
    }

    /// Well-formedness: domains are unique; bucket IPs are unique; every
    /// reverse-index entry lies in the bucket of its own IP address, is the
    /// live record of its domain, and appears once per bucket.
    pub closed spec fn wf(&self) -> bool {
        let ds = self.certs_data();
        let bs = self.reverse@;
        &&& (forall|i: int, j: int|
            0 <= i < j < ds.len() ==> ds[i].domain != ds[j].domain)
        &&& (forall|i: int, j: int| 0 <= i < j < bs.len() ==> bs[i].ip@ != bs[j].ip@)
        &&& (forall|i: int, k: int|
            0 <= i < bs.len() && 0 <= k < bs[i].certs@.len() ==> bs[i].certs@[k]@.ip_addr
                == bs[i].ip@)
        &&& (forall|i: int, k: int|
            0 <= i < bs.len() && 0 <= k < bs[i].certs@.len() ==> spec_find_cert(
                ds,
                bs[i].certs@[k]@.domain,
            ) == Some(bs[i].certs@[k]@))
        &&& (forall|i: int, k: int, l: int|
            0 <= i < bs.len() && 0 <= k < l < bs[i].certs@.len() ==> bs[i].certs@[k]@.domain
                != bs[i].certs@[l]@.domain)
        &&& (forall|k: int|
            0 <= k < ds.len() ==> spec_by_ip(bs, ds[k].ip_addr).contains(ds[k]))
    }

    /// An empty registry.
    pub fn new() -> (r: Registry)
        ensures
            r.wf(),
            r.certs_data() == Seq::<CertData>::empty(),
            r.events_data() == Seq::<EventData>::empty(),
            forall|ip: Seq<u8>| r.by_ip(ip) == Seq::<CertData>::empty(),
    {
        let r = Registry { certs: Vec::new(), reverse: Vec::new(), events: Vec::new() };
        proof {
            assert(r.certs_data() =~= Seq::<CertData>::empty());
            assert(r.events_data() =~= Seq::<EventData>::empty());
        }
        r
    }

    /// The events emitted so far.
    pub fn events(&self) -> (r: &Vec<Event>)
        ensures
            r@.map_values(|e: Event| e@) == self.events_data(),
    {
        &self.events
    }

    /// Finds the position of the record for `domain`, scanning in order.
    fn find_cert_index(&self, domain: &[u8]) -> (r: Option<usize>)
        ensures
            match r {
                Some(k) => k < self.certs@.len() && self.lookup(domain@) == Some(
                    self.certs_data()[k as int],
                ) && self.certs_data()[k as int].domain == domain@,
                None => self.lookup(domain@) is None,
            },
    {
        let ghost ds = self.certs_data();
        let mut k: usize = 0;
        while k < self.certs.len()
            invariant
                k <= self.certs@.len(),
                ds == self.certs_data(),
                forall|j: int| 0 <= j < k ==> ds[j].domain != domain@,
            decreases self.certs@.len() - k,
        {
            if bytes_vec_eq(&self.certs[k].domain, &crate::util::slice_to_vec_u8(domain)) {
                proof {
                    lemma_find_cert_at(ds, domain@, k as int);
                }
                return Some(k);
            }
            k = k + 1;
        }
        proof {
            lemma_find_cert_none(ds, domain@);
        }
        None
    }

    /// Finds the position of the reverse-index bucket for `ip`.
    fn find_bucket_index(&self, ip: &[u8]) -> (r: Option<usize>)
        ensures
            match r {
                Some(i) => i < self.reverse@.len() && i == bucket_index(self.reverse@, ip@),
                None => bucket_index(self.reverse@, ip@) == -1,
            },
    {
        let mut i: usize = 0;
        while i < self.reverse.len()
            invariant
                i <= self.reverse@.len(),
                forall|j: int| 0 <= j < i ==> self.reverse@[j].ip@ != ip@,
            decreases self.reverse@.len() - i,
        {
            if bytes_vec_eq(&self.reverse[i].ip, &crate::util::slice_to_vec_u8(ip)) {
                proof {
                    lemma_bucket_index_at(self.reverse@, ip@, i as int);
                }
                return Some(i);
            }
            i = i + 1;
        }
        proof {
            lemma_bucket_index_none(self.reverse@, ip@);
        }
        None
    }

    /// Looks up the record stored for `domain`, folded to lowercase; an
    /// unregistered domain yields the empty record with `version_number` 0.
    pub fn get_certificate(&self, domain: Vec<u8>) -> (r: Certificate)
        ensures
            r@ == match self.lookup(lower_bytes(domain@)) {
                Some(c) => c,
                None => empty_cert_data(),
            },
    {
        let norm = to_lowercase_bytes(domain.as_slice());
        match self.find_cert_index(norm.as_slice()) {
            Some(k) => self.certs[k].duplicate(),
            None => Certificate {
                version_number: 0,
                owner_id: 0,
                name: Vec::new(),
                info: Vec::new(),
                key: Vec::new(),
                ip_addr: Vec::new(),
                domain: Vec::new(),
            },
        }
    }

    /// Lists the certificates whose `ip_addr` is `ip`, in registration order.
    pub fn get_certificates_by_ip(&self, ip: Vec<u8>) -> (r: Vec<Certificate>)
        ensures
            r@.map_values(|c: Certificate| c@) == self.by_ip(ip@),
    {
        match self.find_bucket_index(ip.as_slice()) {
            Some(i) => {
                let bucket = &self.reverse[i];
                let mut out: Vec<Certificate> = Vec::new();
                let mut k: usize = 0;
                while k < bucket.certs.len()
                    invariant
                        k <= bucket.certs@.len(),
                        out@.map_values(|c: Certificate| c@) == bucket.certs@.map_values(
                            |c: Certificate| c@,
                        ).take(k as int),
                    decreases bucket.certs@.len() - k,
                {
                    let c = bucket.certs[k].duplicate();
                    proof {
                        assert(out@.push(c).map_values(|c: Certificate| c@) =~= out@.map_values(
                            |c: Certificate| c@,
                        ).push(c@));
                        assert(bucket.certs@.map_values(|c: Certificate| c@).take(k + 1 as int)
                            =~= bucket.certs@.map_values(|c: Certificate| c@).take(k as int).push(
                            bucket.certs@[k as int]@,
                        ));
                    }
                    out.push(c);
                    k = k + 1;
                }
                proof {
                    assert(bucket.certs@.map_values(|c: Certificate| c@).take(
                        bucket.certs@.len() as int,
                    ) =~= bucket.certs@.map_values(|c: Certificate| c@));
                }
                out
            },
            None => Vec::new(),
        }
    }
}

/// A missing domain is missing at every position.
pub proof fn lemma_find_cert_none_forall(ds: Seq<CertData>, domain: Seq<u8>)
    requires
        spec_find_cert(ds, domain) is None,
    ensures
        forall|j: int| 0 <= j < ds.len() ==> ds[j].domain != domain,
    decreases ds.len(),
{
    if ds.len() > 0 {
        lemma_find_cert_none_forall(ds.drop_first(), domain);
        assert forall|j: int| 0 <= j < ds.len() implies ds[j].domain != domain by {
            if j > 0 {
                assert(ds.drop_first()[j - 1].domain != domain);
            }
        }
    }
}

/// How a lookup behaves after appending a record.
pub proof fn lemma_find_cert_push(ds: Seq<CertData>, c: CertData, domain: Seq<u8>)
    ensures
        spec_find_cert(ds.push(c), domain) == if spec_find_cert(ds, domain) is Some {
            spec_find_cert(ds, domain)
        } else if c.domain == domain {
            Some(c)
        } else {
            None
        },
    decreases ds.len(),
{
    let p = ds.push(c);
    if ds.len() == 0 {
        assert(p[0] == c);
        assert(p.drop_first() =~= Seq::<CertData>::empty());
        if c.domain == domain {
            assert(spec_find_cert(p, domain) == Some(c));
        } else {
            assert(spec_find_cert(p, domain) == spec_find_cert(p.drop_first(), domain));
            assert(spec_find_cert(p.drop_first(), domain) is None);
        }
    } else {
        assert(p[0] == ds[0]);
        if ds[0].domain == domain {
            assert(spec_find_cert(ds, domain) == Some(ds[0]));
            assert(spec_find_cert(p, domain) == Some(p[0]));
        } else {
            lemma_find_cert_push(ds.drop_first(), c, domain);
            assert(p.drop_first() =~= ds.drop_first().push(c));
            assert(spec_find_cert(p, domain) == spec_find_cert(p.drop_first(), domain));
            assert(spec_find_cert(ds, domain) == spec_find_cert(ds.drop_first(), domain));
        }
    }
}

/// Replacing a bucket's contents, keeping its address, moves no bucket.
proof fn lemma_bucket_index_update(bs: Seq<IpBucket>, i: int, b: IpBucket, q: Seq<u8>)
    requires
        0 <= i < bs.len(),
        b.ip@ == bs[i].ip@,
    ensures
        bucket_index(bs.update(i, b), q) == bucket_index(bs, q),
    decreases bs.len(),
{
    if i == 0 {
        assert(bs.update(0, b).drop_first() =~= bs.drop_first());
    } else {
        lemma_bucket_index_update(bs.drop_first(), i - 1, b, q);
        assert(bs.update(i, b).drop_first() =~= bs.drop_first().update(i - 1, b));
    }
}

/// How bucket positions behave after appending a bucket.
proof fn lemma_bucket_index_push(bs: Seq<IpBucket>, b: IpBucket, q: Seq<u8>)
    ensures
        bucket_index(bs, q) != -1 ==> bucket_index(bs.push(b), q) == bucket_index(bs, q),
        bucket_index(bs, q) == -1 && b.ip@ == q ==> bucket_index(bs.push(b), q) == bs.len(),
        bucket_index(bs, q) == -1 && b.ip@ != q ==> bucket_index(bs.push(b), q) == -1,
    decreases bs.len(),
{
    let p = bs.push(b);
    if bs.len() == 0 {
        assert(p[0] == b);
        assert(p.drop_first() =~= Seq::<IpBucket>::empty());
        assert(bucket_index(bs, q) == -1);
        if b.ip@ == q {
            assert(bucket_index(p, q) == 0);
        } else {
            assert(bucket_index(p.drop_first(), q) == -1);
            assert(bucket_index(p, q) == -1);
        }
    } else {
        assert(p[0] == bs[0]);
        if bs[0].ip@ == q {
            assert(bucket_index(p, q) == 0);
            assert(bucket_index(bs, q) == 0);
        } else {
            lemma_bucket_index_push(bs.drop_first(), b, q);
            lemma_bucket_index(bs.drop_first(), q);
            lemma_bucket_index(bs.drop_first().push(b), q);
            assert(p.drop_first() =~= bs.drop_first().push(b));
            assert(bucket_index(p.drop_first(), q) == bucket_index(bs.drop_first().push(b), q));
            assert(bucket_index(p, q) == (if bucket_index(p.drop_first(), q) == -1 {
                -1int
            } else {
                bucket_index(p.drop_first(), q) + 1
            }));
            assert(bucket_index(bs, q) == (if bucket_index(bs.drop_first(), q) == -1 {
                -1int
            } else {
                bucket_index(bs.drop_first(), q) + 1
            }));
        }
    }
}

/// The account that signed an operation.
pub open spec fn sender_of(origin: Origin) -> u64 {
    origin->Signed_0
}

/// The record that a successful registration or modification stores.
pub open spec fn new_cert_data(
    sender: u64,
    name: Seq<u8>,
    norm_domain: Seq<u8>,
    ip_addr: Seq<u8>,
    info: Seq<u8>,
    key: Seq<u8>,
) -> CertData {
    CertData {
        version_number: 1,
        owner_id: sender,
        name: name,
        info: info,
        key: key,
        ip_addr: ip_addr,
        domain: norm_domain,
    }
}

/// The error that `register_certificate` reports, if any: authentication
/// first, then each field in a fixed order, then availability of the domain.
pub open spec fn spec_register_error(
    ds: Seq<CertData>,
    origin: Origin,
    name: Seq<u8>,
    domain: Seq<u8>,
    ip_addr: Seq<u8>,
    info: Seq<u8>,
    key: Seq<u8>,
) -> Option<Error> {
    let norm = lower_bytes(domain);
    if origin is Unsigned {
        Some(Error::BadOrigin)
    } else if !valid_name(name) {
        Some(Error::InvalidOwner)
    } else if !valid_domain(norm) {
        Some(Error::InvalidDomain)
    } else if !valid_ip(ip_addr) {
        Some(Error::InvalidIP)
    } else if !valid_info(info) {
        Some(Error::InvalidInfo)
    } else if !valid_key(key) {
        Some(Error::InvalidKey)
    } else if spec_find_cert(ds, norm) is Some {
        Some(Error::DomainAlreadyTaken)
    } else {
        None
    }
}

impl Registry {
    /// Registers a certificate for a domain that is still free. Every field is
    /// validated; the domain is folded to lowercase first and stored that way.
    /// On success the record enters the certificate map and the bucket of its
    /// IP address, and a `CertificateRegistered` event is emitted; on failure
    /// nothing changes.
    pub fn register_certificate(
        &mut self,
        origin: Origin,
        name: Vec<u8>,
        domain: Vec<u8>,
        ip_addr: Vec<u8>,
        info: Vec<u8>,
        key: Vec<u8>,
    ) -> (r: Result<(), Error>)
        requires
            old(self).wf(),
        ensures
            final(self).wf(),
            match r {
                Err(e) => {
                    &&& spec_register_error(
                        old(self).certs_data(),
                        origin,
                        name@,
                        domain@,
                        ip_addr@,
                        info@,
                        key@,
                    ) == Some(e)
                    &&& final(self).certs_data() == old(self).certs_data()
                    &&& final(self).events_data() == old(self).events_data()
                    &&& forall|q: Seq<u8>| final(self).by_ip(q) == old(self).by_ip(q)
                },
                Ok(()) => {
                    let norm = lower_bytes(domain@);
                    let c = new_cert_data(sender_of(origin), name@, norm, ip_addr@, info@, key@);
                    &&& spec_register_error(
                        old(self).certs_data(),
                        origin,
                        name@,
                        domain@,
                        ip_addr@,
                        info@,
                        key@,
                    ) is None
                    &&& final(self).certs_data() == old(self).certs_data().push(c)
                    &&& final(self).lookup(norm) == Some(c)
                    &&& final(self).by_ip(ip_addr@) == old(self).by_ip(ip_addr@).push(c)
                    &&& (forall|q: Seq<u8>|
                        q != ip_addr@ ==> final(self).by_ip(q) == old(self).by_ip(q))
                    &&& final(self).events_data() == old(self).events_data().push(
                        EventData::Registered(c, sender_of(origin)),
                    )
                },
            },
    {
        let sender: u64 = match origin {
            Origin::Signed(id) => id,
            Origin::Unsigned => {
                return Err(Error::BadOrigin);
            },
        };
        if !name_is_valid(name.as_slice()) {
            return Err(Error::InvalidOwner);
        }
        let norm = to_lowercase_bytes(domain.as_slice());
        if !domain_is_valid(norm.as_slice()) {
            return Err(Error::InvalidDomain);
        }
        if !ip_is_valid(ip_addr.as_slice()) {
            return Err(Error::InvalidIP);
        }
        if !info_is_valid(info.as_slice()) {
            return Err(Error::InvalidInfo);
        }
        if !key_is_valid(key.as_slice()) {
            return Err(Error::InvalidKey);
        }
        if self.find_cert_index(norm.as_slice()).is_some() {
            return Err(Error::DomainAlreadyTaken);
        }
        let cert = Certificate {
            version_number: CERTIFICATE_VERSION,
            owner_id: sender,
            name: name,
            info: info,
            key: key,
            ip_addr: ip_addr,
            domain: norm,
        };
        let ghost c = cert@;
        self.insert_record(&cert);
        let ghost old_events = self.events_data();
        self.events.push(Event::CertificateRegistered(cert, sender));
        proof {
            assert(self.events_data() =~= old_events.push(EventData::Registered(c, sender)));
        }
        Ok(())
    }

    /// Adds a record for a still-free domain to the certificate map and to the
    /// bucket of its IP address.
    fn insert_record(&mut self, cert: &Certificate)
        requires
            old(self).wf(),
            old(self).lookup(cert@.domain) is None,
        ensures
            final(self).wf(),
            final(self).certs_data() == old(self).certs_data().push(cert@),
            final(self).lookup(cert@.domain) == Some(cert@),
            forall|d: Seq<u8>|
                d != cert@.domain ==> final(self).lookup(d) == old(self).lookup(d),
            final(self).by_ip(cert@.ip_addr) == old(self).by_ip(cert@.ip_addr).push(cert@),
            forall|q: Seq<u8>| q != cert@.ip_addr ==> final(self).by_ip(q) == old(self).by_ip(q),
            final(self).events_data() == old(self).events_data(),
    {
        let ghost old_ds = self.certs_data();
        let ghost old_bs = self.reverse@;
        let ghost c = cert@;
        proof {
            lemma_find_cert_none_forall(old_ds, c.domain);
        }
        self.certs.push(cert.duplicate());
        proof {
            assert(self.certs_data() =~= old_ds.push(c));
        }
        match self.find_bucket_index(cert.ip_addr.as_slice()) {
            Some(i) => {
                proof {
                    lemma_bucket_index(old_bs, c.ip_addr);
                }
                let mut bucket = self.reverse.remove(i);
                bucket.certs.push(cert.duplicate());
                self.reverse.insert(i, bucket);
                proof {
                    let b = self.reverse@[i as int];
                    assert(self.reverse@ =~= old_bs.update(i as int, b));
                    assert(b.certs@.map_values(|x: Certificate| x@) =~= old_bs[i as int].certs@
                        .map_values(|x: Certificate| x@).push(c));
                }
            },
            None => {
                proof {
                    lemma_bucket_index(old_bs, c.ip_addr);
                }
                let mut bucket_certs: Vec<Certificate> = Vec::new();
                bucket_certs.push(cert.duplicate());
                let bucket = IpBucket {
                    ip: crate::util::slice_to_vec_u8(cert.ip_addr.as_slice()),
                    certs: bucket_certs,
                };
                self.reverse.push(bucket);
                proof {
                    let b = self.reverse@.last();
                    assert(self.reverse@ =~= old_bs.push(b));
                    assert(b.certs@.map_values(|x: Certificate| x@) =~= Seq::<
                        CertData,
                    >::empty().push(c));
                }
            },
        }
        proof {
            self.lemma_register_state(old_ds, old_bs, c);
            assert forall|d: Seq<u8>| d != c.domain implies self.lookup(d) == spec_find_cert(
                old_ds,
                d,
            ) by {
                lemma_find_cert_push(old_ds, c, d);
            }
        }
    }

    /// The state after a registration is well-formed and relates to the state
    /// before it as `register_certificate` promises.
    proof fn lemma_register_state(&self, old_ds: Seq<CertData>, old_bs: Seq<IpBucket>, c: CertData)
        requires
            self.certs_data() == old_ds.push(c),
            spec_find_cert(old_ds, c.domain) is None,
            // the old state was well-formed
            (forall|i: int, j: int|
                0 <= i < j < old_ds.len() ==> old_ds[i].domain != old_ds[j].domain),
            (forall|i: int, j: int| 0 <= i < j < old_bs.len() ==> old_bs[i].ip@ != old_bs[j].ip@),
            (forall|i: int, k: int|
                0 <= i < old_bs.len() && 0 <= k < old_bs[i].certs@.len() ==> old_bs[i].certs@[k]@
                    .ip_addr == old_bs[i].ip@),
            (forall|i: int, k: int|
                0 <= i < old_bs.len() && 0 <= k < old_bs[i].certs@.len() ==> spec_find_cert(
                    old_ds,
                    old_bs[i].certs@[k]@.domain,
                ) == Some(old_bs[i].certs@[k]@)),
            (forall|i: int, k: int, l: int|
                0 <= i < old_bs.len() && 0 <= k < l < old_bs[i].certs@.len() ==> old_bs[i].certs@[k]@
                    .domain != old_bs[i].certs@[l]@.domain),
            (forall|k: int|
                0 <= k < old_ds.len() ==> spec_by_ip(old_bs, old_ds[k].ip_addr).contains(
                    old_ds[k],
                )),
            // the reverse index was extended in the bucket of the new record
            ({
                let i = bucket_index(old_bs, c.ip_addr);
                if i == -1 {
                    self.reverse@.len() == old_bs.len() + 1 && self.reverse@ == old_bs.push(
                        self.reverse@.last(),
                    ) && self.reverse@.last().ip@ == c.ip_addr && self.reverse@.last().certs@
                        .map_values(|x: Certificate| x@) == Seq::<CertData>::empty().push(c)
                } else {
                    let b = self.reverse@[i];
                    self.reverse@ == old_bs.update(i, b) && b.ip@ == old_bs[i].ip@ && b.certs@
                        .map_values(|x: Certificate| x@) == old_bs[i].certs@.map_values(
                        |x: Certificate| x@,
                    ).push(c)
                }
            }),
        ensures
            self.wf(),
            self.lookup(c.domain) == Some(c),
            spec_by_ip(self.reverse@, c.ip_addr) == spec_by_ip(old_bs, c.ip_addr).push(c),
            forall|q: Seq<u8>|
                q != c.ip_addr ==> spec_by_ip(self.reverse@, q) == spec_by_ip(old_bs, q),
    {
        let ds = self.certs_data();
        let bs = self.reverse@;
        let i0 = bucket_index(old_bs, c.ip_addr);
        lemma_bucket_index(old_bs, c.ip_addr);
        lemma_find_cert_none_forall(old_ds, c.domain);
        // lookups in the new certificate sequence
        assert forall|d: Seq<u8>| true implies spec_find_cert(ds, d) == (if spec_find_cert(
            old_ds,
            d,
        ) is Some {
            spec_find_cert(old_ds, d)
        } else if c.domain == d {
            Some(c)
        } else {
            None
        }) by {
            lemma_find_cert_push(old_ds, c, d);
        }
        assert(spec_find_cert(ds, c.domain) == Some(c));
        // bucket positions in the new reverse index
        if i0 == -1 {
            assert forall|q: Seq<u8>| true implies bucket_index(bs, q) == (if bucket_index(
                old_bs,
                q,
            ) != -1 {
                bucket_index(old_bs, q)
            } else if q == c.ip_addr {
                old_bs.len() as int
            } else {
                -1
            }) by {
                lemma_bucket_index_push(old_bs, bs.last(), q);
            }
        } else {
            assert forall|q: Seq<u8>| true implies bucket_index(bs, q) == bucket_index(
                old_bs,
                q,
            ) by {
                lemma_bucket_index_update(old_bs, i0, bs[i0], q);
            }
            assert(old_bs[i0].ip@ == c.ip_addr);
        }
        // the listing for the new record's address gained exactly the record
        assert(spec_by_ip(bs, c.ip_addr) =~= spec_by_ip(old_bs, c.ip_addr).push(c));
        assert forall|q: Seq<u8>| q != c.ip_addr implies spec_by_ip(bs, q) == spec_by_ip(
            old_bs,
            q,
        ) by {
            if bucket_index(bs, q) != -1 {
                lemma_bucket_index(bs, q);
                lemma_bucket_index(old_bs, q);
                if i0 != -1 && bucket_index(bs, q) == i0 {
                    assert(q == old_bs[i0].ip@);
                    assert(false);
                }
                assert(spec_by_ip(bs, q) =~= spec_by_ip(old_bs, q));
            }
        }
        // well-formedness of the new state
        assert forall|i: int, j: int| 0 <= i < j < ds.len() implies ds[i].domain != ds[j].domain by {
            if j == ds.len() - 1 {
                assert(old_ds[i].domain != c.domain);
            }
        }
        assert forall|i: int, j: int| 0 <= i < j < bs.len() implies bs[i].ip@ != bs[j].ip@ by {
            if i0 == -1 && j == bs.len() - 1 {
                assert(old_bs[i].ip@ != c.ip_addr);
            }
        }
        assert forall|i: int, k: int|
            0 <= i < bs.len() && 0 <= k < bs[i].certs@.len() implies bs[i].certs@[k]@.ip_addr
            == bs[i].ip@ by {
            let newmap = bs[i].certs@.map_values(|x: Certificate| x@);
            assert(newmap[k] == bs[i].certs@[k]@);
            if i0 == -1 && i == bs.len() - 1 {
                assert(newmap[k] == c);
            } else if i0 != -1 && i == i0 {
                let oldmap = old_bs[i0].certs@.map_values(|x: Certificate| x@);
                if k < old_bs[i0].certs@.len() {
                    assert(newmap[k] == oldmap[k]);
                    assert(oldmap[k] == old_bs[i0].certs@[k]@);
                } else {
                    assert(newmap[k] == c);
                }
            }
        }
        assert forall|i: int, k: int|
            0 <= i < bs.len() && 0 <= k < bs[i].certs@.len() implies spec_find_cert(
            ds,
            bs[i].certs@[k]@.domain,
        ) == Some(bs[i].certs@[k]@) by {
            let newmap = bs[i].certs@.map_values(|x: Certificate| x@);
            assert(newmap[k] == bs[i].certs@[k]@);
            if i0 == -1 && i == bs.len() - 1 {
                assert(newmap[k] == c);
            } else if i0 != -1 && i == i0 && k == bs[i].certs@.len() - 1 {
                assert(newmap[k] == c);
            } else {
                let oldmap = old_bs[i].certs@.map_values(|x: Certificate| x@);
                assert(newmap[k] == oldmap[k]);
                assert(oldmap[k] == old_bs[i].certs@[k]@);
                assert(spec_find_cert(old_ds, old_bs[i].certs@[k]@.domain) == Some(
                    old_bs[i].certs@[k]@,
                ));
            }
        }
        assert forall|i: int, k: int, l: int|
            0 <= i < bs.len() && 0 <= k < l < bs[i].certs@.len() implies bs[i].certs@[k]@.domain
            != bs[i].certs@[l]@.domain by {
            let newmap = bs[i].certs@.map_values(|x: Certificate| x@);
            assert(newmap[k] == bs[i].certs@[k]@);
            assert(newmap[l] == bs[i].certs@[l]@);
            if i0 != -1 && i == i0 && l == bs[i].certs@.len() - 1 {
                let oldmap = old_bs[i].certs@.map_values(|x: Certificate| x@);
                assert(newmap[l] == c);
                assert(newmap[k] == oldmap[k]);
                assert(oldmap[k] == old_bs[i].certs@[k]@);
                assert(spec_find_cert(old_ds, old_bs[i].certs@[k]@.domain) == Some(
                    old_bs[i].certs@[k]@,
                ));
                assert(old_bs[i].certs@[k]@.domain != c.domain);
            } else if i0 != -1 && i == i0 {
                let oldmap = old_bs[i].certs@.map_values(|x: Certificate| x@);
                assert(newmap[k] == oldmap[k] && newmap[l] == oldmap[l]);
                assert(oldmap[k] == old_bs[i].certs@[k]@ && oldmap[l] == old_bs[i].certs@[l]@);
            }
        }
        assert forall|k: int| 0 <= k < ds.len() implies spec_by_ip(bs, ds[k].ip_addr).contains(
            ds[k],
        ) by {
            if k == ds.len() - 1 {
                assert(spec_by_ip(bs, c.ip_addr).last() == c);
            } else {
                assert(spec_by_ip(old_bs, old_ds[k].ip_addr).contains(old_ds[k]));
                if old_ds[k].ip_addr == c.ip_addr {
                    let w = choose|w: int|
                        0 <= w < spec_by_ip(old_bs, c.ip_addr).len() && spec_by_ip(
                            old_bs,
                            c.ip_addr,
                        )[w] == old_ds[k];
                    assert(spec_by_ip(bs, c.ip_addr)[w] == old_ds[k]);
                }
            }
        }
    }
}

/// How a lookup behaves after removing a record, when domains are unique.
pub proof fn lemma_find_cert_remove(ds: Seq<CertData>, k: int, d: Seq<u8>)
    requires
        0 <= k < ds.len(),
        forall|i: int, j: int| 0 <= i < j < ds.len() ==> ds[i].domain != ds[j].domain,
    ensures
        spec_find_cert(ds.remove(k), d) == if ds[k].domain == d {
            None::<CertData>
        } else {
            spec_find_cert(ds, d)
        },
    decreases ds.len(),
{
    let p = ds.remove(k);
    if k == 0 {
        assert(p =~= ds.drop_first());
        if ds[0].domain == d {
            assert forall|j: int| 0 <= j < ds.drop_first().len() implies ds.drop_first()[j].domain
                != d by {
                assert(ds.drop_first()[j] == ds[j + 1]);
            }
            lemma_find_cert_none(ds.drop_first(), d);
        }
    } else {
        assert(p[0] == ds[0]);
        if ds[0].domain == d {
            assert(spec_find_cert(p, d) == Some(p[0]));
            assert(spec_find_cert(ds, d) == Some(ds[0]));
        } else {
            assert forall|i: int, j: int|
                0 <= i < j < ds.drop_first().len() implies ds.drop_first()[i].domain
                != ds.drop_first()[j].domain by {
                assert(ds.drop_first()[i] == ds[i + 1] && ds.drop_first()[j] == ds[j + 1]);
            }
            lemma_find_cert_remove(ds.drop_first(), k - 1, d);
            assert(p.drop_first() =~= ds.drop_first().remove(k - 1));
            assert(spec_find_cert(p, d) == spec_find_cert(p.drop_first(), d));
            assert(spec_find_cert(ds, d) == spec_find_cert(ds.drop_first(), d));
        }
    }
}

/// The error that `modify_certificate` reports, if any: authentication first,
/// then each field in a fixed order, then existence, ownership, and the demand
/// that something change.
pub open spec fn spec_modify_error(
    ds: Seq<CertData>,
    origin: Origin,
    name: Seq<u8>,
    domain: Seq<u8>,
    ip_addr: Seq<u8>,
    info: Seq<u8>,
    key: Seq<u8>,
) -> Option<Error> {
    let norm = lower_bytes(domain);
    if origin is Unsigned {
        Some(Error::BadOrigin)
    } else if !valid_name(name) {
        Some(Error::InvalidOwner)
    } else if !valid_domain(norm) {
        Some(Error::InvalidDomain)
    } else if !valid_ip(ip_addr) {
        Some(Error::InvalidIP)
    } else if !valid_info(info) {
        Some(Error::InvalidInfo)
    } else if !valid_key(key) {
        Some(Error::InvalidKey)
    } else if spec_find_cert(ds, norm) is None {
        Some(Error::NonexistentDomain)
    } else if spec_find_cert(ds, norm)->0.owner_id != sender_of(origin) {
        Some(Error::DifferentOwner)
    } else if new_cert_data(sender_of(origin), name, norm, ip_addr, info, key) == spec_find_cert(
        ds,
        norm,
    )->0 {
        Some(Error::NoModifications)
    } else {
        None
    }
}

/// The error that `remove_certificate` reports, if any.
pub open spec fn spec_remove_error(ds: Seq<CertData>, origin: Origin, domain: Seq<u8>) -> Option<
    Error,
> {
    let norm = lower_bytes(domain);
    if origin is Unsigned {
        Some(Error::BadOrigin)
    } else if !valid_domain(norm) {
        Some(Error::InvalidDomain)
    } else if spec_find_cert(ds, norm) is None {
        Some(Error::NonexistentDomain)
    } else if spec_find_cert(ds, norm)->0.owner_id != sender_of(origin) {
        Some(Error::DifferentOwner)
    } else {
        None
    }
}

impl Registry {
    /// Removes the certificate of a domain, which only its owner may do. The
    /// domain is folded to lowercase and must be well-formed and registered.
    /// On success the record leaves the certificate map and the bucket of its
    /// IP address, and a `CertificateRemoved` event is emitted; on failure
    /// nothing changes.
    pub fn remove_certificate(&mut self, origin: Origin, domain: Vec<u8>) -> (r: Result<(), Error>)
        requires
            old(self).wf(),
        ensures
            final(self).wf(),
            match r {
                Err(e) => {
                    &&& spec_remove_error(old(self).certs_data(), origin, domain@) == Some(e)
                    &&& final(self).certs_data() == old(self).certs_data()
                    &&& final(self).events_data() == old(self).events_data()
                    &&& forall|q: Seq<u8>| final(self).by_ip(q) == old(self).by_ip(q)
                },
                Ok(()) => {
                    let norm = lower_bytes(domain@);
                    let victim = old(self).lookup(norm)->0;
                    &&& spec_remove_error(old(self).certs_data(), origin, domain@) is None
                    &&& exists|k: int|
                        0 <= k < old(self).certs_data().len() && old(self).certs_data()[k]
                            == victim && final(self).certs_data() == old(
                            self,
                        ).certs_data().remove(k)
                    &&& final(self).lookup(norm) is None
                    &&& (forall|d: Seq<u8>|
                        d != norm ==> final(self).lookup(d) == old(self).lookup(d))
                    &&& (forall|k: int|
                        0 <= k < final(self).by_ip(victim.ip_addr).len() ==> final(self).by_ip(
                            victim.ip_addr,
                        )[k].domain != norm)
                    &&& exists|l: int|
                        0 <= l < old(self).by_ip(victim.ip_addr).len() && old(self).by_ip(
                            victim.ip_addr,
                        )[l] == victim && final(self).by_ip(victim.ip_addr) == old(self).by_ip(
                            victim.ip_addr,
                        ).remove(l)
                    &&& (forall|q: Seq<u8>|
                        q != victim.ip_addr ==> final(self).by_ip(q) == old(self).by_ip(q))
                    &&& final(self).events_data() == old(self).events_data().push(
                        EventData::Removed(victim, sender_of(origin)),
                    )
                },
            },
    {
        let sender: u64 = match origin {
            Origin::Signed(id) => id,
            Origin::Unsigned => {
                return Err(Error::BadOrigin);
            },
        };
        let norm = to_lowercase_bytes(domain.as_slice());
        if !domain_is_valid(norm.as_slice()) {
            return Err(Error::InvalidDomain);
        }
        let k = match self.find_cert_index(norm.as_slice()) {
            Some(k) => k,
            None => {
                return Err(Error::NonexistentDomain);
            },
        };
        proof {
            assert(self.certs_data()[k as int] == self.certs@[k as int]@);
        }
        if self.certs[k].owner_id != sender {
            return Err(Error::DifferentOwner);
        }
        let victim = self.remove_record(k);
        let ghost v = victim@;
        let ghost old_events = self.events_data();
        self.events.push(Event::CertificateRemoved(victim, sender));
        proof {
            assert(self.events_data() =~= old_events.push(EventData::Removed(v, sender)));
        }
        Ok(())
    }

    /// Replaces the certificate of a registered domain, which only its owner
    /// may do, and only with at least one field changed. Every field is
    /// validated; the domain is folded to lowercase first. On success the old
    /// record leaves the map and the bucket of its IP address, the new record
    /// enters the map and the bucket of its own IP address, and a
    /// `CertificateModified` event is emitted; on failure nothing changes.
    pub fn modify_certificate(
        &mut self,
        origin: Origin,
        name: Vec<u8>,
        domain: Vec<u8>,
        ip_addr: Vec<u8>,
        info: Vec<u8>,
        key: Vec<u8>,
    ) -> (r: Result<(), Error>)
        requires
            old(self).wf(),
        ensures
            final(self).wf(),
            match r {
                Err(e) => {
                    &&& spec_modify_error(
                        old(self).certs_data(),
                        origin,
                        name@,
                        domain@,
                        ip_addr@,
                        info@,
                        key@,
                    ) == Some(e)
                    &&& final(self).certs_data() == old(self).certs_data()
                    &&& final(self).events_data() == old(self).events_data()
                    &&& forall|q: Seq<u8>| final(self).by_ip(q) == old(self).by_ip(q)
                },
                Ok(()) => {
                    let norm = lower_bytes(domain@);
                    let old_rec = old(self).lookup(norm)->0;
                    let c = new_cert_data(sender_of(origin), name@, norm, ip_addr@, info@, key@);
                    &&& spec_modify_error(
                        old(self).certs_data(),
                        origin,
                        name@,
                        domain@,
                        ip_addr@,
                        info@,
                        key@,
                    ) is None
                    &&& exists|k: int|
                        0 <= k < old(self).certs_data().len() && old(self).certs_data()[k]
                            == old_rec && final(self).certs_data() == old(
                            self,
                        ).certs_data().remove(k).push(c)
                    &&& final(self).lookup(norm) == Some(c)
                    &&& (forall|d: Seq<u8>|
                        d != norm ==> final(self).lookup(d) == old(self).lookup(d))
                    &&& (if old_rec.ip_addr == ip_addr@ {
                        exists|l: int|
                            0 <= l < old(self).by_ip(ip_addr@).len() && old(self).by_ip(ip_addr@)[l]
                                == old_rec && final(self).by_ip(ip_addr@) == old(self).by_ip(
                                ip_addr@,
                            ).remove(l).push(c)
                    } else {
                        exists|l: int|
                            0 <= l < old(self).by_ip(old_rec.ip_addr).len() && old(self).by_ip(
                                old_rec.ip_addr,
                            )[l] == old_rec && final(self).by_ip(old_rec.ip_addr) == old(
                                self,
                            ).by_ip(old_rec.ip_addr).remove(l) && final(self).by_ip(ip_addr@)
                                == old(self).by_ip(ip_addr@).push(c)
                    })
                    &&& (forall|q: Seq<u8>|
                        q != ip_addr@ && q != old_rec.ip_addr ==> final(self).by_ip(q) == old(
                            self,
                        ).by_ip(q))
                    &&& final(self).events_data() == old(self).events_data().push(
                        EventData::Modified(c, old_rec, sender_of(origin)),
                    )
                },
            },
    {
        let sender: u64 = match origin {
            Origin::Signed(id) => id,
            Origin::Unsigned => {
                return Err(Error::BadOrigin);
            },
        };
        if !name_is_valid(name.as_slice()) {
            return Err(Error::InvalidOwner);
        }
        let norm = to_lowercase_bytes(domain.as_slice());
        if !domain_is_valid(norm.as_slice()) {
            return Err(Error::InvalidDomain);
        }
        if !ip_is_valid(ip_addr.as_slice()) {
            return Err(Error::InvalidIP);
        }
        if !info_is_valid(info.as_slice()) {
            return Err(Error::InvalidInfo);
        }
        if !key_is_valid(key.as_slice()) {
            return Err(Error::InvalidKey);
        }
        let k = match self.find_cert_index(norm.as_slice()) {
            Some(k) => k,
            None => {
                return Err(Error::NonexistentDomain);
            },
        };
        proof {
            assert(self.certs_data()[k as int] == self.certs@[k as int]@);
        }
        if self.certs[k].owner_id != sender {
            return Err(Error::DifferentOwner);
        }
        let cert = Certificate {
            version_number: CERTIFICATE_VERSION,
            owner_id: sender,
            name: name,
            info: info,
            key: key,
            ip_addr: ip_addr,
            domain: norm,
        };
        let ghost c = cert@;
        if cert == self.certs[k] {
            return Err(Error::NoModifications);
        }
        let old_cert = self.remove_record(k);
        let ghost v = old_cert@;
        let ghost mid = *self;
        self.insert_record(&cert);
        let ghost old_events = self.events_data();
        self.events.push(Event::CertificateModified(cert, old_cert, sender));
        proof {
            assert(self.events_data() =~= old_events.push(EventData::Modified(c, v, sender)));
            assert(self.certs_data() == old(self).certs_data().remove(k as int).push(c));
            assert forall|d: Seq<u8>| d != c.domain implies self.lookup(d) == old(self).lookup(
                d,
            ) by {
                assert(mid.lookup(d) == old(self).lookup(d));
            }
            if v.ip_addr == c.ip_addr {
                let l = choose|l: int|
                    0 <= l < old(self).by_ip(v.ip_addr).len() && old(self).by_ip(v.ip_addr)[l] == v
                        && mid.by_ip(v.ip_addr) == old(self).by_ip(v.ip_addr).remove(l);
                assert(self.by_ip(c.ip_addr) == old(self).by_ip(c.ip_addr).remove(l).push(c));
            } else {
                let l = choose|l: int|
                    0 <= l < old(self).by_ip(v.ip_addr).len() && old(self).by_ip(v.ip_addr)[l] == v
                        && mid.by_ip(v.ip_addr) == old(self).by_ip(v.ip_addr).remove(l);
                assert(self.by_ip(v.ip_addr) == old(self).by_ip(v.ip_addr).remove(l));
                assert(self.by_ip(c.ip_addr) == old(self).by_ip(c.ip_addr).push(c));
            }
        }
        Ok(())
    }

    /// Removes the record at position `k` from the certificate map and from
    /// the bucket of its IP address, and returns it.
    fn remove_record(&mut self, k: usize) -> (victim: Certificate)
        requires
            old(self).wf(),
            k < old(self).certs_data().len(),
        ensures
            final(self).wf(),
            victim@ == old(self).certs_data()[k as int],
            final(self).certs_data() == old(self).certs_data().remove(k as int),
            final(self).lookup(victim@.domain) is None,
            forall|d: Seq<u8>|
                d != victim@.domain ==> final(self).lookup(d) == old(self).lookup(d),
            forall|j: int|
                0 <= j < final(self).by_ip(victim@.ip_addr).len() ==> final(self).by_ip(
                    victim@.ip_addr,
                )[j].domain != victim@.domain,
            exists|l: int|
                0 <= l < old(self).by_ip(victim@.ip_addr).len() && old(self).by_ip(
                    victim@.ip_addr,
                )[l] == victim@ && final(self).by_ip(victim@.ip_addr) == old(self).by_ip(
                    victim@.ip_addr,
                ).remove(l),
            forall|q: Seq<u8>|
                q != victim@.ip_addr ==> final(self).by_ip(q) == old(self).by_ip(q),
            final(self).events_data() == old(self).events_data(),
    {
        let ghost old_ds = self.certs_data();
        let ghost old_bs = self.reverse@;
        let victim = self.certs.remove(k);
        let ghost v = victim@;
        proof {
            assert(v == old_ds[k as int]);
            assert(self.certs_data() =~= old_ds.remove(k as int));
            lemma_find_cert_at(old_ds, v.domain, k as int);
            assert(spec_by_ip(old_bs, v.ip_addr).contains(v));
            lemma_bucket_index(old_bs, v.ip_addr);
            assert(bucket_index(old_bs, v.ip_addr) != -1);
        }
        let i = match self.find_bucket_index(victim.ip_addr.as_slice()) {
            Some(i) => i,
            None => {
                proof {
                    assert(false);
                }
                0
            },
        };
        let mut bucket = self.reverse.remove(i);
        let ghost old_bucket_map = bucket.certs@.map_values(|x: Certificate| x@);
        let l = match Self::find_bucket_entry(&bucket.certs, victim.domain.as_slice()) {
            Some(l) => l,
            None => {
                proof {
                    let w = choose|w: int|
                        0 <= w < old_bucket_map.len() && old_bucket_map[w] == v;
                    assert(bucket.certs@[w]@.domain == v.domain);
                    assert(false);
                }
                0
            },
        };
        bucket.certs.remove(l);
        self.reverse.insert(i, bucket);
        let ghost b = self.reverse@[i as int];
        proof {
            assert(self.reverse@ =~= old_bs.update(i as int, b));
            assert(b.certs@.map_values(|x: Certificate| x@) =~= old_bucket_map.remove(l as int));
            self.lemma_remove_state(old_ds, old_bs, k as int, i as int, l as int, v);
            assert((l as int) < old(self).by_ip(v.ip_addr).len() && old(self).by_ip(v.ip_addr)[l
                as int] == v && self.by_ip(v.ip_addr) == old(self).by_ip(v.ip_addr).remove(
                l as int,
            ));
        }
        victim
    }

    /// Finds the position of the entry for `domain` within a bucket.
    fn find_bucket_entry(certs: &Vec<Certificate>, domain: &[u8]) -> (r: Option<usize>)
        ensures
            match r {
                Some(l) => l < certs@.len() && certs@[l as int]@.domain == domain@,
                None => forall|j: int| 0 <= j < certs@.len() ==> certs@[j]@.domain != domain@,
            },
    {
        let mut l: usize = 0;
        while l < certs.len()
            invariant
                l <= certs@.len(),
                forall|j: int| 0 <= j < l ==> certs@[j]@.domain != domain@,
            decreases certs@.len() - l,
        {
            if bytes_vec_eq(&certs[l].domain, &crate::util::slice_to_vec_u8(domain)) {
                return Some(l);
            }
            l = l + 1;
        }
        None
    }

    /// The state after a removal is well-formed and relates to the state
    /// before it as `remove_certificate` promises.
    proof fn lemma_remove_state(
        &self,
        old_ds: Seq<CertData>,
        old_bs: Seq<IpBucket>,
        k: int,
        i: int,
        l: int,
        v: CertData,
    )
        requires
            0 <= k < old_ds.len(),
            old_ds[k] == v,
            spec_find_cert(old_ds, v.domain) == Some(v),
            self.certs_data() == old_ds.remove(k),
            i == bucket_index(old_bs, v.ip_addr),
            0 <= i < old_bs.len(),
            0 <= l < old_bs[i].certs@.len(),
            old_bs[i].certs@[l]@.domain == v.domain,
            self.reverse@ == old_bs.update(i, self.reverse@[i]),
            self.reverse@[i].ip@ == old_bs[i].ip@,
            self.reverse@[i].certs@.map_values(|x: Certificate| x@) == old_bs[i].certs@.map_values(
                |x: Certificate| x@,
            ).remove(l),
            // the old state was well-formed
            (forall|a: int, b: int|
                0 <= a < b < old_ds.len() ==> old_ds[a].domain != old_ds[b].domain),
            (forall|a: int, b: int| 0 <= a < b < old_bs.len() ==> old_bs[a].ip@ != old_bs[b].ip@),
            (forall|a: int, c: int|
                0 <= a < old_bs.len() && 0 <= c < old_bs[a].certs@.len() ==> old_bs[a].certs@[c]@
                    .ip_addr == old_bs[a].ip@),
            (forall|a: int, c: int|
                0 <= a < old_bs.len() && 0 <= c < old_bs[a].certs@.len() ==> spec_find_cert(
                    old_ds,
                    old_bs[a].certs@[c]@.domain,
                ) == Some(old_bs[a].certs@[c]@)),
            (forall|a: int, c: int, d: int|
                0 <= a < old_bs.len() && 0 <= c < d < old_bs[a].certs@.len() ==> old_bs[a].certs@[c]@
                    .domain != old_bs[a].certs@[d]@.domain),
            (forall|c: int|
                0 <= c < old_ds.len() ==> spec_by_ip(old_bs, old_ds[c].ip_addr).contains(
                    old_ds[c],
                )),
        ensures
            self.wf(),
            self.lookup(v.domain) is None,
            forall|d: Seq<u8>|
                d != v.domain ==> self.lookup(d) == spec_find_cert(old_ds, d),
            forall|c: int|
                0 <= c < spec_by_ip(self.reverse@, v.ip_addr).len() ==> spec_by_ip(
                    self.reverse@,
                    v.ip_addr,
                )[c].domain != v.domain,
            spec_by_ip(old_bs, v.ip_addr)[l] == v,
            spec_by_ip(self.reverse@, v.ip_addr) == spec_by_ip(old_bs, v.ip_addr).remove(l),
            forall|q: Seq<u8>|
                q != v.ip_addr ==> spec_by_ip(self.reverse@, q) == spec_by_ip(old_bs, q),
    {
        let ds = self.certs_data();
        let bs = self.reverse@;
        let oldmap = old_bs[i].certs@.map_values(|x: Certificate| x@);
        let newmap = bs[i].certs@.map_values(|x: Certificate| x@);
        lemma_bucket_index(old_bs, v.ip_addr);
        assert(old_bs[i].ip@ == v.ip_addr);
        // lookups in the new certificate sequence
        assert forall|d: Seq<u8>| true implies spec_find_cert(ds, d) == (if v.domain == d {
            None::<CertData>
        } else {
            spec_find_cert(old_ds, d)
        }) by {
            lemma_find_cert_remove(old_ds, k, d);
        }
        // the entry for the removed record was the one at position l
        assert(oldmap[l] == old_bs[i].certs@[l]@);
        assert(oldmap[l] == v) by {
            assert(spec_find_cert(old_ds, old_bs[i].certs@[l]@.domain) == Some(
                old_bs[i].certs@[l]@,
            ));
        }
        // bucket positions are unchanged
        assert forall|q: Seq<u8>| true implies bucket_index(bs, q) == bucket_index(old_bs, q) by {
            lemma_bucket_index_update(old_bs, i, bs[i], q);
        }
        assert(spec_by_ip(bs, v.ip_addr) =~= spec_by_ip(old_bs, v.ip_addr).remove(l));
        assert forall|q: Seq<u8>| q != v.ip_addr implies spec_by_ip(bs, q) == spec_by_ip(
            old_bs,
            q,
        ) by {
            if bucket_index(bs, q) != -1 {
                lemma_bucket_index(old_bs, q);
                if bucket_index(bs, q) == i {
                    assert(q == old_bs[i].ip@);
                    assert(false);
                }
                assert(spec_by_ip(bs, q) =~= spec_by_ip(old_bs, q));
            }
        }
        // no entry with the removed domain remains anywhere
        assert forall|a: int, c: int|
            0 <= a < bs.len() && 0 <= c < bs[a].certs@.len() implies bs[a].certs@[c]@.domain
            != v.domain by {
            if a == i {
                let cs = bs[i].certs@;
                assert(newmap[c] == cs[c]@);
                if c < l {
                    assert(newmap[c] == oldmap[c]);
                    assert(oldmap[c] == old_bs[i].certs@[c]@);
                    assert(old_bs[i].certs@[c]@.domain != old_bs[i].certs@[l]@.domain);
                } else {
                    assert(newmap[c] == oldmap[c + 1]);
                    assert(oldmap[c + 1] == old_bs[i].certs@[c + 1]@);
                    assert(old_bs[i].certs@[l]@.domain != old_bs[i].certs@[c + 1]@.domain);
                }
            } else {
                assert(old_bs[a].certs@[c]@.ip_addr == old_bs[a].ip@);
                if old_bs[a].certs@[c]@.domain == v.domain {
                    assert(spec_find_cert(old_ds, v.domain) == Some(old_bs[a].certs@[c]@));
                    assert(old_bs[a].certs@[c]@ == v);
                    assert(old_bs[a].ip@ == v.ip_addr);
                    assert(old_bs[a].ip@ != old_bs[i].ip@);
                    assert(false);
                }
            }
        }
        // well-formedness of the new state
        assert forall|a: int, b: int| 0 <= a < b < ds.len() implies ds[a].domain != ds[b].domain by {
            assert(ds[a] == if a < k {
                old_ds[a]
            } else {
                old_ds[a + 1]
            });
            assert(ds[b] == if b < k {
                old_ds[b]
            } else {
                old_ds[b + 1]
            });
        }
        assert forall|a: int, c: int|
            0 <= a < bs.len() && 0 <= c < bs[a].certs@.len() implies bs[a].certs@[c]@.ip_addr
            == bs[a].ip@ by {
            if a == i {
                assert(newmap[c] == bs[a].certs@[c]@);
                if c < l {
                    assert(newmap[c] == oldmap[c] && oldmap[c] == old_bs[i].certs@[c]@);
                } else {
                    assert(newmap[c] == oldmap[c + 1] && oldmap[c + 1] == old_bs[i].certs@[c + 1]@);
                }
            }
        }
        assert forall|a: int, c: int|
            0 <= a < bs.len() && 0 <= c < bs[a].certs@.len() implies spec_find_cert(
            ds,
            bs[a].certs@[c]@.domain,
        ) == Some(bs[a].certs@[c]@) by {
            let entry = bs[a].certs@[c]@;
            assert(entry.domain != v.domain);
            if a == i {
                assert(newmap[c] == entry);
                if c < l {
                    assert(newmap[c] == oldmap[c] && oldmap[c] == old_bs[i].certs@[c]@);
                } else {
                    assert(newmap[c] == oldmap[c + 1] && oldmap[c + 1] == old_bs[i].certs@[c + 1]@);
                }
            }
            assert(spec_find_cert(old_ds, entry.domain) == Some(entry));
        }
        assert forall|a: int, c: int, d: int|
            0 <= a < bs.len() && 0 <= c < d < bs[a].certs@.len() implies bs[a].certs@[c]@.domain
            != bs[a].certs@[d]@.domain by {
            if a == i {
                assert(newmap[c] == bs[a].certs@[c]@ && newmap[d] == bs[a].certs@[d]@);
                let c0 = if c < l {
                    c
                } else {
                    c + 1
                };
                let d0 = if d < l {
                    d
                } else {
                    d + 1
                };
                assert(newmap[c] == oldmap[c0] && newmap[d] == oldmap[d0]);
                assert(oldmap[c0] == old_bs[i].certs@[c0]@ && oldmap[d0] == old_bs[i].certs@[d0]@);
            }
        }
        assert forall|c: int| 0 <= c < ds.len() implies spec_by_ip(bs, ds[c].ip_addr).contains(
            ds[c],
        ) by {
            let c0 = if c < k {
                c
            } else {
                c + 1
            };
            assert(ds[c] == old_ds[c0]);
            assert(spec_by_ip(old_bs, old_ds[c0].ip_addr).contains(old_ds[c0]));
            let w = choose|w: int|
                0 <= w < spec_by_ip(old_bs, old_ds[c0].ip_addr).len() && spec_by_ip(
                    old_bs,
                    old_ds[c0].ip_addr,
                )[w] == old_ds[c0];
            if old_ds[c0].ip_addr == v.ip_addr {
                assert(spec_by_ip(old_bs, v.ip_addr)[w] == old_ds[c0]);
                assert(old_ds[c0].domain != v.domain);
                assert(w != l);
                if w < l {
                    assert(spec_by_ip(bs, v.ip_addr)[w] == old_ds[c0]);
                } else {
                    assert(spec_by_ip(bs, v.ip_addr)[w - 1] == old_ds[c0]);
                }
            } else {
                assert(spec_by_ip(bs, old_ds[c0].ip_addr)[w] == old_ds[c0]);
            }
        }
    }
}

/// Law: registering a record for a free domain makes a lookup of the
/// lowercase-folded domain return exactly that record — version 1, the signer
/// as owner, and every submitted field. `register_certificate` extends the
/// certificate sequence by this record, and `get_certificate` returns what the
/// lookup finds.
pub proof fn lemma_register_then_get(
    pre: Seq<CertData>,
    sender: u64,
    name: Seq<u8>,
    domain: Seq<u8>,
    ip_addr: Seq<u8>,
    info: Seq<u8>,
    key: Seq<u8>,
)
    requires
        spec_find_cert(pre, lower_bytes(domain)) is None,
    ensures
        spec_find_cert(
            pre.push(new_cert_data(sender, name, lower_bytes(domain), ip_addr, info, key)),
            lower_bytes(domain),
        ) == Some(new_cert_data(sender, name, lower_bytes(domain), ip_addr, info, key)),
{
    lemma_find_cert_push(
        pre,
        new_cert_data(sender, name, lower_bytes(domain), ip_addr, info, key),
        lower_bytes(domain),
    );
}

/// Law: registration is not idempotent. After a successful registration, the
/// same request again reports `DomainAlreadyTaken` — and, by the error clause
/// of `register_certificate`, leaves the registry unchanged.
pub proof fn lemma_register_not_idempotent(
    pre: Seq<CertData>,
    origin: Origin,
    name: Seq<u8>,
    domain: Seq<u8>,
    ip_addr: Seq<u8>,
    info: Seq<u8>,
    key: Seq<u8>,
)
    requires
        spec_register_error(pre, origin, name, domain, ip_addr, info, key) is None,
    ensures
        spec_register_error(
            pre.push(
                new_cert_data(sender_of(origin), name, lower_bytes(domain), ip_addr, info, key),
            ),
            origin,
            name,
            domain,
            ip_addr,
            info,
            key,
        ) == Some(Error::DomainAlreadyTaken),
{
    lemma_find_cert_push(
        pre,
        new_cert_data(sender_of(origin), name, lower_bytes(domain), ip_addr, info, key),
        lower_bytes(domain),
    );
}

/// Law: after a record is removed, a lookup of its domain finds nothing — so
/// `get_certificate` returns the empty sentinel with version 0 — and a second
/// removal of the same domain reports `NonexistentDomain`.
pub proof fn lemma_remove_then_get(ds: Seq<CertData>, k: int, origin: Origin, domain: Seq<u8>)
    requires
        0 <= k < ds.len(),
        ds[k].domain == lower_bytes(domain),
        forall|i: int, j: int| 0 <= i < j < ds.len() ==> ds[i].domain != ds[j].domain,
        origin is Signed,
        valid_domain(lower_bytes(domain)),
    ensures
        spec_find_cert(ds.remove(k), lower_bytes(domain)) is None,
        spec_remove_error(ds.remove(k), origin, domain) == Some(Error::NonexistentDomain),
{
    lemma_find_cert_remove(ds, k, lower_bytes(domain));
}

/// Law: in a well-formed registry the reverse index and the certificate map
/// agree. The record of a domain is listed under its own IP address, and any
/// listing of a record with that domain is that very record, in the bucket of
/// its IP address and nowhere else.
pub proof fn lemma_reverse_index_consistent(reg: Registry, d: Seq<u8>)
    requires
        reg.wf(),
    ensures
        reg.lookup(d) is Some ==> reg.by_ip(reg.lookup(d)->0.ip_addr).contains(reg.lookup(d)->0),
        forall|q: Seq<u8>, j: int|
            0 <= j < reg.by_ip(q).len() && reg.by_ip(q)[j].domain == d ==> reg.lookup(d) == Some(
                reg.by_ip(q)[j],
            ) && q == reg.by_ip(q)[j].ip_addr,
{
    let ds = reg.certs_data();
    if reg.lookup(d) is Some {
        lemma_find_cert_witness(ds, d);
        let k = choose|k: int|
            0 <= k < ds.len() && ds[k] == spec_find_cert(ds, d)->0 && ds[k].domain == d && (forall|
                j: int,
            | 0 <= j < k ==> ds[j].domain != d);
        assert(reg.by_ip(ds[k].ip_addr).contains(ds[k]));
    }
    assert forall|q: Seq<u8>, j: int|
        0 <= j < reg.by_ip(q).len() && reg.by_ip(q)[j].domain == d implies reg.lookup(d) == Some(
        reg.by_ip(q)[j],
    ) && q == reg.by_ip(q)[j].ip_addr by {
        let bs = reg.reverse@;
        lemma_bucket_index(bs, q);
        let i = bucket_index(bs, q);
        let m = bs[i].certs@.map_values(|x: Certificate| x@);
        assert(m[j] == bs[i].certs@[j]@);
    }
}

/// The characterization of `bucket_index` by a witness position.
proof fn lemma_bucket_index_at(bs: Seq<IpBucket>, ip: Seq<u8>, i: int)
    requires
        0 <= i < bs.len(),
        bs[i].ip@ == ip,
        forall|j: int| 0 <= j < i ==> bs[j].ip@ != ip,
    ensures
        bucket_index(bs, ip) == i,
    decreases bs.len(),
{
    if i > 0 {
        lemma_bucket_index_at(bs.drop_first(), ip, i - 1);
    }
}

proof fn lemma_bucket_index_none(bs: Seq<IpBucket>, ip: Seq<u8>)
    requires
        forall|j: int| 0 <= j < bs.len() ==> bs[j].ip@ != ip,
    ensures
        bucket_index(bs, ip) == -1,
    decreases bs.len(),
{
    if bs.len() > 0 {
        lemma_bucket_index_none(bs.drop_first(), ip);
    }
}

} // verus!
