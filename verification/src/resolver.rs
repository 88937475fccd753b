//! The caching, non-blocking DNS resolver core: per-family answer caches,
//! an in-flight table that coalesces callers of the same name, and the
//! datagrams to send.  The sockets live with the caller: `query` hands back
//! the datagrams to put on the wire, `receive` takes the datagram that
//! arrived and hands back the callers to wake, in the order they asked.

use vstd::prelude::*;
use crate::cache::{Cache, spec_insert_entries, spec_insert_reg_index, spec_lookup, spec_rotate, spec_set, spec_ref_view, spec_wheel_views, lemma_wheel_views_add};
use crate::expiry::{ExpiryHandler, spec_same_meta};
use crate::cache::ExpiryRef;
use crate::ip::{IpAddress, IpConfig, IpVersion};
use crate::dnswire::{encode_query, parse_response, spec_dns_query, spec_parse_response};
use vstd::string::StringExecFns;
use vstd::string::StrSliceExecFns;

verus! {

/// What a resolution request comes back with: an answer now (an address,
/// or none for a name that does not exist), or a pending state.
pub enum ResolvePromise {
    Resolved(usize, Option<IpAddress>),
    Resolving,
}

/// How cached address lists are rotated.
pub enum RoundRobin {
    Fixed,
    Rotate,
    Random,
}

/// A datagram for the caller to put on the wire, on the socket of its
/// family, to the first configured upstream server.
pub struct DnsSend {
    pub v6: bool,
    pub payload: Vec<u8>,
}

/// The resolver.
pub struct CachingResolver {
    resolving: Vec<((String, u16), Vec<usize>)>,
    servers: Vec<IpAddress>,
    cache4: Option<Cache<IpAddress>>,
    cache6: Option<Cache<IpAddress>>,
    ip_config: IpConfig,
}

/// The trailing-dot form a name is cached under.
pub open spec fn spec_normalized(s: Seq<char>) -> Seq<char> {
    if s.len() == 0 || s.last() != '.' {
        s.push('.')
    } else {
        s
    }
}

/// First in-flight entry for `(name, qtype)`.
pub open spec fn spec_res_find(
    rs: Seq<(Seq<char>, int, Seq<usize>)>,
    name: Seq<char>,
    qtype: int,
) -> Option<int>
    decreases rs.len(),
{
    if rs.len() == 0 {
        None
    } else if rs[0].0 == name && rs[0].1 == qtype {
        Some(0int)
    } else {
        match spec_res_find(rs.drop_first(), name, qtype) {
            Option::Some(i) => Some(i + 1),
            Option::None => None,
        }
    }
}

pub proof fn lemma_res_find_at(
    rs: Seq<(Seq<char>, int, Seq<usize>)>,
    name: Seq<char>,
    qtype: int,
    idx: int,
)
    requires
        0 <= idx < rs.len(),
        rs[idx].0 == name && rs[idx].1 == qtype,
        forall|m: int| 0 <= m < idx ==> !((#[trigger] rs[m]).0 == name && rs[m].1 == qtype),
    ensures
        spec_res_find(rs, name, qtype) == Some(idx),
    decreases idx,
{
    if idx > 0 {
        lemma_res_find_at(rs.drop_first(), name, qtype, idx - 1);
    }
}

pub proof fn lemma_res_find_none(rs: Seq<(Seq<char>, int, Seq<usize>)>, name: Seq<char>, qtype: int)
    requires
        forall|m: int| 0 <= m < rs.len() ==> !((#[trigger] rs[m]).0 == name && rs[m].1 == qtype),
    ensures
        spec_res_find(rs, name, qtype) is None,
    decreases rs.len(),
{
    if rs.len() > 0 {
        lemma_res_find_none(rs.drop_first(), name, qtype);
    }
}

/// What a response does to its family's cache entries: an NXDOMAIN answer
/// marks the name null, anything else inserts the matching answers.
pub open spec fn spec_family_cache_effect(
    es: Seq<(Seq<char>, Option<Seq<IpAddress>>)>,
    qname: Seq<char>,
    answers: Seq<(Seq<char>, IpAddress, int)>,
    nx: bool,
    want_v4: bool,
    cap: int,
) -> Seq<(Seq<char>, Option<Seq<IpAddress>>)> {
    if nx {
        match spec_lookup(es, qname) {
            Option::None => es + seq![(qname, Option::<Seq<IpAddress>>::None)],
            Option::Some(_) => spec_set(es, qname, Option::<Seq<IpAddress>>::None),
        }
    } else {
        spec_entries_after_answers(es, answers, 0, want_v4, cap)
    }
}

/// The entries and the wheel registrations after the matching answers of
/// a response are inserted, in order: each accepted answer joins the front
/// of its name's list and registers a positive wheel entry, under its list
/// index, in the bucket its own record TTL maps to (clamped by the wheel).
pub open spec fn spec_caches_after_answers(
    es: Seq<(Seq<char>, Option<Seq<IpAddress>>)>,
    wv: Seq<Seq<(Seq<char>, int, bool)>>,
    w0: ExpiryHandler<ExpiryRef>,
    answers: Seq<(Seq<char>, IpAddress, int)>,
    i: int,
    want_v4: bool,
    now: int,
    cap: int,
) -> (Seq<(Seq<char>, Option<Seq<IpAddress>>)>, Seq<Seq<(Seq<char>, int, bool)>>)
    decreases answers.len() - i,
{
    if i < 0 {
        spec_caches_after_answers(es, wv, w0, answers, 0, want_v4, now, cap)
    } else if i >= answers.len() {
        (es, wv)
    } else {
        let a = answers[i];
        if a.1 is V4 == want_v4 {
            let es2 = spec_insert_entries(es, a.0, a.1, false, cap);
            let wv2 = match spec_insert_reg_index(es, a.0, false, cap) {
                Option::Some(j) => {
                    let b = w0.spec_bucket_of(now, a.2);
                    wv.update(b, wv[b].push((a.0, j, true)))
                },
                Option::None => wv,
            };
            spec_caches_after_answers(es2, wv2, w0, answers, i + 1, want_v4, now, cap)
        } else {
            spec_caches_after_answers(es, wv, w0, answers, i + 1, want_v4, now, cap)
        }
    }
}

/// The entries component of the paired fold is the entries fold.
pub proof fn lemma_caches_fold_entries(
    es: Seq<(Seq<char>, Option<Seq<IpAddress>>)>,
    wv: Seq<Seq<(Seq<char>, int, bool)>>,
    w0: ExpiryHandler<ExpiryRef>,
    answers: Seq<(Seq<char>, IpAddress, int)>,
    i: int,
    want_v4: bool,
    now: int,
    cap: int,
)
    requires
        0 <= i,
    ensures
        spec_caches_after_answers(es, wv, w0, answers, i, want_v4, now, cap).0
            == spec_entries_after_answers(es, answers, i, want_v4, cap),
    decreases answers.len() - i,
{
    if i < answers.len() {
        let a = answers[i];
        if a.1 is V4 == want_v4 {
            let es2 = spec_insert_entries(es, a.0, a.1, false, cap);
            let wv2 = match spec_insert_reg_index(es, a.0, false, cap) {
                Option::Some(j) => {
                    let b = w0.spec_bucket_of(now, a.2);
                    wv.update(b, wv[b].push((a.0, j, true)))
                },
                Option::None => wv,
            };
            lemma_caches_fold_entries(es2, wv2, w0, answers, i + 1, want_v4, now, cap);
        } else {
            lemma_caches_fold_entries(es, wv, w0, answers, i + 1, want_v4, now, cap);
        }
    }
}

/// What a response does to its family's wheel registrations: an NXDOMAIN
/// answer registers one negative entry for the name, with the fixed
/// negative lifetime, in the bucket that lifetime maps to; anything else
/// registers the accepted answers with their own record TTLs.
pub open spec fn spec_family_wheel_effect(
    c: Cache<IpAddress>,
    qname: Seq<char>,
    answers: Seq<(Seq<char>, IpAddress, int)>,
    nx: bool,
    want_v4: bool,
    now: int,
) -> Seq<Seq<(Seq<char>, int, bool)>> {
    if nx {
        let w = c.spec_expiry();
        let b = w.spec_bucket_of(now, NEGATIVE_TTL as int);
        spec_wheel_views(w).update(b, spec_wheel_views(w)[b].push((qname, 0int, false)))
    } else {
        spec_caches_after_answers(
            c.entries(),
            spec_wheel_views(c.spec_expiry()),
            c.spec_expiry(),
            answers,
            0,
            want_v4,
            now,
            c.spec_value_capacity(),
        ).1
    }
}

/// The lifetime a cached negative answer is registered with.
pub const NEGATIVE_TTL: u64 = 60;

/// The entries of the per-family caches after the matching answers of a
/// response are inserted, in order, each at the front of its name's list.
pub open spec fn spec_entries_after_answers(
    es: Seq<(Seq<char>, Option<Seq<IpAddress>>)>,
    answers: Seq<(Seq<char>, IpAddress, int)>,
    i: int,
    want_v4: bool,
    cap: int,
) -> Seq<(Seq<char>, Option<Seq<IpAddress>>)>
    decreases answers.len() - i,
{
    if i < 0 {
        spec_entries_after_answers(es, answers, 0, want_v4, cap)
    } else if i >= answers.len() {
        es
    } else {
        let a = answers[i];
        let es2 = if a.1 is V4 == want_v4 {
            spec_insert_entries(es, a.0, a.1, false, cap)
        } else {
            es
        };
        spec_entries_after_answers(es2, answers, i + 1, want_v4, cap)
    }
}

impl CachingResolver {
    pub closed spec fn resolving_view(self) -> Seq<(Seq<char>, int, Seq<usize>)> {
        self.resolving@.map_values(
            |t: ((String, u16), Vec<usize>)| (t.0.0@, t.0.1 as int, t.1@),
        )
    }

    pub closed spec fn spec_servers(self) -> Seq<IpAddress> {
        self.servers@
    }

    pub closed spec fn spec_cache4(self) -> Option<Cache<IpAddress>> {
        self.cache4
    }

    pub closed spec fn spec_cache6(self) -> Option<Cache<IpAddress>> {
        self.cache6
    }

    pub closed spec fn spec_config(self) -> IpConfig {
        self.ip_config
    }

    /// Whether the preferred family (consulted first) is IPv4.
    pub open spec fn spec_prefers_v4(self) -> bool {
        self.spec_config().default_version == (IpVersion { v4: true, v6: false })
    }

    pub open spec fn wf(self) -> bool {
        &&& (self.spec_cache4() is Some) == self.spec_config().supported_versions.v4
        &&& (self.spec_cache6() is Some) == self.spec_config().supported_versions.v6
        &&& (self.spec_cache4() matches Some(c) ==> c.wf())
        &&& (self.spec_cache6() matches Some(c) ==> c.wf())
        &&& (self.spec_prefers_v4() ==> self.spec_config().supported_versions.v4)
        &&& (!self.spec_prefers_v4() ==> self.spec_config().supported_versions.v6)
    }

    /// What this resolver answers for `qname` right now: `None` while the
    /// answer is pending (a fresh miss, or a name already in flight asked
    /// without expecting a response), `Some(None)` for a cached negative
    /// answer, `Some(Some(ip))` for the rotated head of the cached list.
    pub open spec fn spec_answer(self, qname: Seq<char>, expect_response: bool, now: int) -> Option<
        Option<IpAddress>,
    > {
        let k = spec_normalized(qname);
        if spec_res_find(self.resolving_view(), k, 1) is Some && !expect_response {
            None
        } else {
            let c = if self.spec_prefers_v4() {
                self.spec_cache4()->0
            } else {
                self.spec_cache6()->0
            };
            match spec_lookup(c.spec_swept(now), k) {
                Option::Some(rec) => match rec {
                    Option::Some(vs) => Some(Some(spec_rotate(vs)[0])),
                    Option::None => Some(None),
                },
                Option::None => None,
            }
        }
    }

    /// The caller's clock has not run behind either cache's wheel.
    pub open spec fn spec_time_ok(self, now: int) -> bool {
        &&& (self.spec_cache4() matches Some(c) ==> c.spec_expiry().spec_start_time() <= now)
        &&& (self.spec_cache6() matches Some(c) ==> c.spec_expiry().spec_start_time() <= now)
    }

    /// A resolver with one fresh cache per supported family and an empty
    /// in-flight table.  `capacity` only pre-sizes the table.
    pub fn new(
        ip_config: IpConfig,
        capacity: usize,
        cache_capacity: usize,
        expiry_bucket_count: usize,
        expiry_bucket_secs: usize,
        now: u64,
    ) -> (r: Self)
        requires
            2 <= expiry_bucket_count,
            1 <= expiry_bucket_secs,
            expiry_bucket_count * expiry_bucket_secs < 0x4000_0000,
            now < 0x4000_0000_0000_0000,
            ip_config.default_version == (IpVersion { v4: true, v6: false })
                ==> ip_config.supported_versions.v4,
            ip_config.default_version != (IpVersion { v4: true, v6: false })
                ==> ip_config.supported_versions.v6,
        ensures
            r.wf(),
            r.spec_time_ok(now as int),
            r.resolving_view() =~= Seq::<(Seq<char>, int, Seq<usize>)>::empty(),
            r.spec_servers() =~= Seq::<IpAddress>::empty(),
            r.spec_config() == ip_config,
            r.spec_cache4() matches Some(c) ==> c.entries() =~= Seq::<
                (Seq<char>, Option<Seq<IpAddress>>),
            >::empty(),
            r.spec_cache6() matches Some(c) ==> c.entries() =~= Seq::<
                (Seq<char>, Option<Seq<IpAddress>>),
            >::empty(),
    {
        let resolving: Vec<((String, u16), Vec<usize>)> = Vec::with_capacity(capacity);
        let cache4: Option<Cache<IpAddress>> = if ip_config.supported_versions.v4 {
            Some(Cache::new(cache_capacity, expiry_bucket_count, expiry_bucket_secs, now))
        } else {
            None
        };
        let cache6: Option<Cache<IpAddress>> = if ip_config.supported_versions.v6 {
            Some(Cache::new(cache_capacity, expiry_bucket_count, expiry_bucket_secs, now))
        } else {
            None
        };
        let r = CachingResolver { resolving, servers: Vec::new(), cache4, cache6, ip_config };
        proof {
            assert(r.resolving_view() =~= Seq::<(Seq<char>, int, Seq<usize>)>::empty());
        }
        r
    }

    /// Reads `nameserver <ip>` lines out of resolver configuration text and
    /// keeps the addresses, in order; unreadable addresses are skipped.
    pub fn parse_dns_config(&mut self, text: &str)
        requires
            old(self).wf(),
        ensures
            final(self).wf(),
            final(self).spec_servers() =~= old(self).spec_servers() + spec_nameservers(
                crate::textutil::spec_content_lines_from(text@, 0),
            ),
            final(self).resolving_view() == old(self).resolving_view(),
            final(self).spec_cache4() == old(self).spec_cache4(),
            final(self).spec_cache6() == old(self).spec_cache6(),
            final(self).spec_config() == old(self).spec_config(),
    {
        let lines = crate::textutil::content_lines(text);
        let ghost lseq = crate::textutil::spec_content_lines_from(text@, 0);
        let ghost base = self.servers@;
        let mut i: usize = 0;
        proof {
            assert(lseq.skip(0) =~= lseq);
            assert(base + Seq::<IpAddress>::empty() =~= base);
        }
        while i < lines.len()
            invariant
                i <= lines@.len(),
                lseq == crate::textutil::spec_content_lines_from(text@, 0),
                lines@.len() == lseq.len(),
                forall|m: int| 0 <= m < lines@.len() ==> #[trigger] lines@[m].wf_for(lseq[m]),
                base + spec_nameservers(lseq) =~= self.servers@ + spec_nameservers(
                    lseq.skip(i as int),
                ),
                self.resolving == old(self).resolving,
                self.cache4 == old(self).cache4,
                self.cache6 == old(self).cache6,
                self.ip_config == old(self).ip_config,
                old(self).wf(),
            decreases lines@.len() - i,
        {
            let ghost sv = self.servers@;
            proof {
                assert(lseq.skip(i as int).drop_first() =~= lseq.skip(i + 1));
                assert(lseq.skip(i as int)[0] == lseq[i as int]);
                assert(lines@[i as int].wf_for(lseq[i as int]));
            }
            let line = &lines[i];
            let mut keep: Option<IpAddress> = None;
            if line.fields.len() >= 2 {
                proof {
                    assert(line.fields_view()[0] == line.fields@[0]@);
                    assert(line.fields_view()[1] == line.fields@[1]@);
                    reveal_strlit("nameserver");
                }
                let ns: String = "nameserver".to_owned();
                if line.fields[0].eq(&ns) {
                    keep = crate::ip::parse_ip(line.fields[1].as_str());
                }
            }
            match keep {
                Some(a) => {
                    self.servers.push(a);
                    proof {
                        let t = spec_nameservers(lseq.skip(i + 1));
                        assert(sv + (seq![a] + t) =~= self.servers@ + t);
                    }
                },
                None => {},
            }
            i = i + 1;
        }
        proof {
            assert(lseq.skip(lseq.len() as int) =~= Seq::<Seq<char>>::empty());
            assert(self.servers@ + Seq::<IpAddress>::empty() =~= self.servers@);
        }
    }

    /// `new`, then the nameservers of the given configuration text.
    pub fn from_config(
        ip_config: IpConfig,
        capacity: usize,
        cache_capacity: usize,
        expiry_bucket_count: usize,
        expiry_bucket_secs: usize,
        resolv_text: &str,
        now: u64,
    ) -> (r: Self)
        requires
            2 <= expiry_bucket_count,
            1 <= expiry_bucket_secs,
            expiry_bucket_count * expiry_bucket_secs < 0x4000_0000,
            now < 0x4000_0000_0000_0000,
            ip_config.default_version == (IpVersion { v4: true, v6: false })
                ==> ip_config.supported_versions.v4,
            ip_config.default_version != (IpVersion { v4: true, v6: false })
                ==> ip_config.supported_versions.v6,
        ensures
            r.wf(),
            r.spec_time_ok(now as int),
            r.resolving_view() =~= Seq::<(Seq<char>, int, Seq<usize>)>::empty(),
            r.spec_servers() =~= spec_nameservers(
                crate::textutil::spec_content_lines_from(resolv_text@, 0),
            ),
            r.spec_config() == ip_config,
    {
        let mut r = CachingResolver::new(
            ip_config,
            capacity,
            cache_capacity,
            expiry_bucket_count,
            expiry_bucket_secs,
            now,
        );
        r.parse_dns_config(resolv_text);
        r
    }

    /// The first configured upstream server, if any.
    pub fn first_server(&self) -> (r: Option<IpAddress>)
        ensures
            self.spec_servers().len() == 0 ==> r is None,
            self.spec_servers().len() > 0 ==> r == Some(self.spec_servers()[0]),
    {
        if self.servers.len() > 0 {
            Some(self.servers[0])
        } else {
            None
        }
    }
}

/// Everything `query` promises: the coalescing fast path for a name
/// already in flight, else the cache consultation.
pub open spec fn spec_query_post(
    pre: CachingResolver,
    post: CachingResolver,
    qname: Seq<char>,
    token: usize,
    expect_response: bool,
    now: int,
    promise: ResolvePromise,
    sends: Seq<(bool, Seq<u8>)>,
) -> bool {
    let k = spec_normalized(qname);
    let rv = pre.resolving_view();
    match spec_res_find(rv, k, 1) {
        Option::Some(i) => if !expect_response {
            &&& promise is Resolving
            &&& sends.len() == 0
            &&& post.resolving_view() =~= rv.update(i, (k, 1int, rv[i].2.push(token)))
            &&& post.spec_cache4() == pre.spec_cache4()
            &&& post.spec_cache6() == pre.spec_cache6()
        } else {
            spec_query_consults_cache(pre, post, k, token, now, promise, sends)
        },
        Option::None => spec_query_consults_cache(pre, post, k, token, now, promise, sends),
    }
}

/// How `query` answers once it consults the preferred cache: a cached
/// list answers with the head of the rotated list, a cached null marker
/// answers negatively, and a miss leaves the caller pending, queueing it
/// and emitting the query datagrams when it is the first for its name.
pub open spec fn spec_query_consults_cache(
    pre: CachingResolver,
    post: CachingResolver,
    k: Seq<char>,
    token: usize,
    now: int,
    promise: ResolvePromise,
    sends: Seq<(bool, Seq<u8>)>,
) -> bool {
    let rv = pre.resolving_view();
    let c = if pre.spec_prefers_v4() {
        pre.spec_cache4()->0
    } else {
        pre.spec_cache6()->0
    };
    let cleaned = c.spec_swept(now);
    let c2 = if pre.spec_prefers_v4() {
        post.spec_cache4()->0
    } else {
        post.spec_cache6()->0
    };
    &&& (if pre.spec_prefers_v4() {
        post.spec_cache6() == pre.spec_cache6() && post.spec_cache4() is Some
    } else {
        post.spec_cache4() == pre.spec_cache4() && post.spec_cache6() is Some
    })
    &&& match spec_lookup(cleaned, k) {
        Option::Some(rec) => match rec {
            Option::Some(vs) => {
                &&& vs.len() >= 1
                &&& promise == ResolvePromise::Resolved(token, Some(spec_rotate(vs)[0]))
                &&& sends.len() == 0
                &&& post.resolving_view() == rv
                &&& c2.entries() =~= spec_set(cleaned, k, Some(spec_rotate(vs)))
            },
            Option::None => {
                &&& promise == ResolvePromise::Resolved(token, None)
                &&& sends.len() == 0
                &&& post.resolving_view() == rv
                &&& c2.entries() =~= cleaned
            },
        },
        Option::None => {
            &&& promise is Resolving
            &&& c2.entries() =~= cleaned
            &&& (if spec_res_find(rv, k, 1) is None {
                &&& post.resolving_view() =~= rv.push((k, 1int, seq![token]))
                &&& sends =~= spec_query_sends(pre.spec_config(), k)
            } else {
                &&& post.resolving_view() == rv
                &&& sends.len() == 0
            })
        },
    }
}

/// What the datagrams sent for a fresh name look like: an A query, then an
/// AAAA query, one per supported family, with transaction id 10; a name
/// that cannot be encoded sends nothing for that type.
pub open spec fn spec_query_sends(cfg: IpConfig, k: Seq<char>) -> Seq<(bool, Seq<u8>)> {
    (if cfg.supported_versions.v4 {
        match spec_dns_query(k, 1, 10) {
            Option::Some(p) => seq![(false, p)],
            Option::None => Seq::<(bool, Seq<u8>)>::empty(),
        }
    } else {
        Seq::<(bool, Seq<u8>)>::empty()
    }) + (if cfg.supported_versions.v6 {
        match spec_dns_query(k, 28, 10) {
            Option::Some(p) => seq![(true, p)],
            Option::None => Seq::<(bool, Seq<u8>)>::empty(),
        }
    } else {
        Seq::<(bool, Seq<u8>)>::empty()
    })
}

impl CachingResolver {
    /// The wire bytes of one query, transaction id and type as given.
    pub fn construct_query(qname: &String, qtype: u16, id: u16) -> (r: Option<Vec<u8>>)
        ensures
            match r {
                Some(v) => spec_dns_query(qname@, qtype as int, id as int) == Some(v@),
                None => spec_dns_query(qname@, qtype as int, id as int) is None,
            },
    {
        encode_query(qname.as_str(), qtype, id)
    }

    /// First in-flight entry for `(name, qtype)`.
    fn find_resolving(&self, name: &String, qtype: u16) -> (r: Option<usize>)
        ensures
            match r {
                Some(i) => {
                    &&& 0 <= i < self.resolving_view().len()
                    &&& spec_res_find(self.resolving_view(), name@, qtype as int) == Some(i as int)
                    &&& self.resolving_view()[i as int].0 == name@
                    &&& self.resolving_view()[i as int].1 == qtype
                },
                None => spec_res_find(self.resolving_view(), name@, qtype as int) is None,
            },
    {
        let n: usize = self.resolving.len();
        let mut i: usize = 0;
        while i < n
            invariant
                i <= n,
                n == self.resolving_view().len(),
                forall|m: int|
                    0 <= m < i ==> !((#[trigger] self.resolving_view()[m]).0 == name@
                        && self.resolving_view()[m].1 == qtype),
            decreases n - i,
        {
            let row = &self.resolving[i];
            if row.0.0.eq(name) && row.0.1 == qtype {
                proof {
                    lemma_res_find_at(self.resolving_view(), name@, qtype as int, i as int);
                }
                return Some(i);
            }
            i = i + 1;
        }
        proof {
            lemma_res_find_none(self.resolving_view(), name@, qtype as int);
        }
        None
    }

    /// Resolves a name to its preferred-family address, answering from the
    /// cache where possible.  A fresh miss queues the caller's token and
    /// hands back the datagrams to send; later callers of the same name
    /// coalesce onto the queued request.  Names are normalized to the
    /// trailing-dot form.
    pub fn query(&mut self, qname: String, token: usize, expect_response: bool, now: u64) -> (r: (
        ResolvePromise,
        Vec<DnsSend>,
    ))
        requires
            old(self).wf(),
            old(self).spec_time_ok(now as int),
            now < 0x4000_0000_0000_0000,
        ensures
            final(self).wf(),
            final(self).spec_servers() == old(self).spec_servers(),
            final(self).spec_config() == old(self).spec_config(),
            old(self).spec_time_ok(now as int) ==> final(self).spec_time_ok(now as int),
            (r.0 is Resolving) <==> (old(self).spec_answer(qname@, expect_response, now as int)
                is None),
            (match old(self).spec_answer(qname@, expect_response, now as int) {
                Option::Some(a) => r.0 == ResolvePromise::Resolved(token, a),
                Option::None => true,
            }),
            spec_query_post(
                *old(self),
                *final(self),
                qname@,
                token,
                expect_response,
                now as int,
                r.0,
                r.1@.map_values(|d: DnsSend| (d.v6, d.payload@)),
            ),
    {
        proof {
            reveal_strlit(".");
            assert("."@ =~= seq!['.']);
        }
        let ghost q0 = qname@;
        let mut key = qname;
        let klen: usize = key.as_str().unicode_len();
        if klen == 0 {
            key.append(".");
            proof {
                assert(key@ =~= spec_normalized(q0));
            }
        } else {
            let last = key.as_str().get_char(klen - 1);
            if last != '.' {
                key.append(".");
                proof {
                    assert(key@ =~= spec_normalized(q0));
                }
            } else {
                proof {
                    assert(key@ =~= spec_normalized(q0));
                }
            }
        }
        let found = self.find_resolving(&key, 1);
        match found {
            Some(i) => {
                if !expect_response {
                    let mut entry = self.resolving.remove(i);
                    entry.1.push(token);
                    self.resolving.insert(i, entry);
                    proof {
                        let rv = old(self).resolving_view();
                        assert(self.resolving_view() =~= rv.update(
                            i as int,
                            (rv[i as int].0, rv[i as int].1, rv[i as int].2.push(token)),
                        ));
                    }
                    return (ResolvePromise::Resolving, Vec::new());
                }
            },
            None => {},
        }
        let hit: Option<Option<Vec<IpAddress>>> = if self.ip_config.default_version.v4
            && !self.ip_config.default_version.v6 {
            match &mut self.cache4 {
                Some(c) => c.query(&key, true, now),
                None => None,
            }
        } else {
            match &mut self.cache6 {
                Some(c) => c.query(&key, true, now),
                None => None,
            }
        };
        match hit {
            Some(rec) => {
                match rec {
                    Some(vs) => (
                        ResolvePromise::Resolved(token, Some(vs[0])),
                        Vec::new(),
                    ),
                    None => (ResolvePromise::Resolved(token, None), Vec::new()),
                }
            },
            None => {
                match found {
                    Some(_) => (ResolvePromise::Resolving, Vec::new()),
                    None => {
                        let mut tokens: Vec<usize> = Vec::new();
                        tokens.push(token);
                        let ghost rv = old(self).resolving_view();
                        self.resolving.push(((key.clone(), 1u16), tokens));
                        proof {
                            assert(self.resolving_view() =~= rv.push((key@, 1int, seq![token])));
                        }
                        let mut sends: Vec<DnsSend> = Vec::new();
                        if self.ip_config.supported_versions.v4 {
                            match encode_query(key.as_str(), 1u16, 10u16) {
                                Some(p) => {
                                    sends.push(DnsSend { v6: false, payload: p });
                                },
                                None => {},
                            }
                        }
                        let ghost sends4 = sends@.map_values(|d: DnsSend| (d.v6, d.payload@));
                        if self.ip_config.supported_versions.v6 {
                            match encode_query(key.as_str(), 28u16, 10u16) {
                                Some(p) => {
                                    sends.push(DnsSend { v6: true, payload: p });
                                },
                                None => {},
                            }
                        }
                        proof {
                            assert(sends@.map_values(|d: DnsSend| (d.v6, d.payload@))
                                =~= spec_query_sends(self.spec_config(), key@));
                        }
                        (ResolvePromise::Resolving, sends)
                    },
                }
            },
        }
    }
}

impl CachingResolver {
    /// Takes one response datagram: caches its A or AAAA answers in the
    /// matching family's cache, clears the name's in-flight entry, and
    /// hands back the queued tokens in the order they asked.  A malformed
    /// datagram, or one without exactly one A or AAAA question, changes
    /// nothing.
    pub fn receive(&mut self, datagram: &[u8], now: u64) -> (r: Vec<usize>)
        requires
            old(self).wf(),
            old(self).spec_time_ok(now as int),
            now < 0x4000_0000_0000_0000,
        ensures
            final(self).wf(),
            final(self).spec_time_ok(now as int),
            final(self).spec_servers() == old(self).spec_servers(),
            final(self).spec_config() == old(self).spec_config(),
            ({
                match spec_parse_response(datagram@) {
                    Option::None => *final(self) == *old(self) && r@.len() == 0,
                    Option::Some(resp) => {
                        let qname = resp.1;
                        let qtype = resp.2;
                        let answers = resp.3;
                        if qtype != 1 && qtype != 28 {
                            *final(self) == *old(self) && r@.len() == 0
                        } else {
                            let want_v4 = qtype == 1;
                            let nx = resp.4 == 3;
                            &&& (match (old(self).spec_cache4(), final(self).spec_cache4()) {
                                (Option::Some(c), Option::Some(c2)) => if want_v4 {
                                    &&& c2.entries() =~= spec_family_cache_effect(
                                        c.entries(),
                                        qname,
                                        answers,
                                        nx,
                                        true,
                                        c.spec_value_capacity(),
                                    )
                                    &&& c2.spec_value_capacity() == c.spec_value_capacity()
                                    &&& spec_same_meta(c.spec_expiry(), c2.spec_expiry())
                                    &&& spec_wheel_views(c2.spec_expiry())
                                        =~~= spec_family_wheel_effect(
                                        c,
                                        qname,
                                        answers,
                                        nx,
                                        true,
                                        now as int,
                                    )
                                } else {
                                    c2 == c
                                },
                                (Option::None, Option::None) => true,
                                _ => false,
                            })
                            &&& (match (old(self).spec_cache6(), final(self).spec_cache6()) {
                                (Option::Some(c), Option::Some(c2)) => if !want_v4 {
                                    &&& c2.entries() =~= spec_family_cache_effect(
                                        c.entries(),
                                        qname,
                                        answers,
                                        nx,
                                        false,
                                        c.spec_value_capacity(),
                                    )
                                    &&& c2.spec_value_capacity() == c.spec_value_capacity()
                                    &&& spec_same_meta(c.spec_expiry(), c2.spec_expiry())
                                    &&& spec_wheel_views(c2.spec_expiry())
                                        =~~= spec_family_wheel_effect(
                                        c,
                                        qname,
                                        answers,
                                        nx,
                                        false,
                                        now as int,
                                    )
                                } else {
                                    c2 == c
                                },
                                (Option::None, Option::None) => true,
                                _ => false,
                            })
                            &&& ({
                                let rv = old(self).resolving_view();
                                match spec_res_find(rv, qname, qtype) {
                                    Option::Some(i) => final(self).resolving_view() =~= rv.remove(
                                        i,
                                    ) && r@ == rv[i].2,
                                    Option::None => final(self).resolving_view() == rv && r@.len()
                                        == 0,
                                }
                            })
                        }
                    },
                }
            }),
    {
        let resp = match parse_response(datagram) {
            Some(t) => t,
            None => {
                return Vec::new();
            },
        };
        if !(resp.qtype == 1 || resp.qtype == 28) {
            return Vec::new();
        }
        let want_v4: bool = resp.qtype == 1;
        let nx: bool = resp.rcode == 3;
        let ghost answers = resp.answers@.map_values(
            |a: crate::dnswire::DnsAnswer| crate::dnswire::spec_answer_view(a),
        );
        if want_v4 {
            match &mut self.cache4 {
                Some(c) => {
                    if nx {
                        let ghost pre = *c;
                        c.insert_negative(resp.qname.clone(), NEGATIVE_TTL, now);
                        proof {
                            lemma_wheel_views_add(
                                pre.spec_expiry(),
                                now as int,
                                NEGATIVE_TTL as int,
                                ExpiryRef::Negative(resp.qname),
                                c.spec_expiry(),
                            );
                        }
                    } else {
                        insert_answers(c, &resp.answers, true, now);
                    }
                },
                None => {},
            }
        } else {
            match &mut self.cache6 {
                Some(c) => {
                    if nx {
                        let ghost pre = *c;
                        c.insert_negative(resp.qname.clone(), NEGATIVE_TTL, now);
                        proof {
                            lemma_wheel_views_add(
                                pre.spec_expiry(),
                                now as int,
                                NEGATIVE_TTL as int,
                                ExpiryRef::Negative(resp.qname),
                                c.spec_expiry(),
                            );
                        }
                    } else {
                        insert_answers(c, &resp.answers, false, now);
                    }
                },
                None => {},
            }
        }
        let found = self.find_resolving(&resp.qname, resp.qtype);
        match found {
            Some(i) => {
                let ghost rv = self.resolving_view();
                let entry = self.resolving.remove(i);
                proof {
                    assert(self.resolving_view() =~= rv.remove(i as int));
                }
                entry.1
            },
            None => Vec::new(),
        }
    }
}

/// Inserts the answers of the wanted family, in order, each at the front
/// of its name's cached list.
fn insert_answers(
    c: &mut Cache<IpAddress>,
    answers: &Vec<crate::dnswire::DnsAnswer>,
    want_v4: bool,
    now: u64,
)
    requires
        old(c).wf(),
        old(c).spec_expiry().spec_start_time() <= now,
        now < 0x4000_0000_0000_0000,
    ensures
        final(c).wf(),
        final(c).spec_value_capacity() == old(c).spec_value_capacity(),
        spec_same_meta(old(c).spec_expiry(), final(c).spec_expiry()),
        final(c).entries() =~= spec_entries_after_answers(
            old(c).entries(),
            answers@.map_values(|a: crate::dnswire::DnsAnswer| crate::dnswire::spec_answer_view(a)),
            0,
            want_v4,
            old(c).spec_value_capacity(),
        ),
        spec_wheel_views(final(c).spec_expiry()) =~~= spec_caches_after_answers(
            old(c).entries(),
            spec_wheel_views(old(c).spec_expiry()),
            old(c).spec_expiry(),
            answers@.map_values(|a: crate::dnswire::DnsAnswer| crate::dnswire::spec_answer_view(a)),
            0,
            want_v4,
            now as int,
            old(c).spec_value_capacity(),
        ).1,
{
    let ghost av = answers@.map_values(
        |a: crate::dnswire::DnsAnswer| crate::dnswire::spec_answer_view(a),
    );
    let ghost w0 = old(c).spec_expiry();
    let ghost cap = old(c).spec_value_capacity();
    let mut j: usize = 0;
    while j < answers.len()
        invariant
            j <= answers@.len(),
            av == answers@.map_values(
                |a: crate::dnswire::DnsAnswer| crate::dnswire::spec_answer_view(a),
            ),
            c.wf(),
            cap == old(c).spec_value_capacity(),
            w0 == old(c).spec_expiry(),
            c.spec_value_capacity() == cap,
            spec_same_meta(w0, c.spec_expiry()),
            old(c).spec_expiry().spec_start_time() <= now,
            now < 0x4000_0000_0000_0000,
            spec_entries_after_answers(old(c).entries(), av, 0, want_v4, cap)
                =~= spec_entries_after_answers(c.entries(), av, j as int, want_v4, cap),
            spec_caches_after_answers(
                old(c).entries(),
                spec_wheel_views(w0),
                w0,
                av,
                0,
                want_v4,
                now as int,
                cap,
            ) == spec_caches_after_answers(
                c.entries(),
                spec_wheel_views(c.spec_expiry()),
                w0,
                av,
                j as int,
                want_v4,
                now as int,
                cap,
            ),
        decreases answers@.len() - j,
    {
        let a = &answers[j];
        proof {
            assert(av[j as int] == crate::dnswire::spec_answer_view(answers@[j as int]));
        }
        if a.addr.is_v4() == want_v4 {
            let ghost pre = *c;
            c.insert(a.name.clone(), a.addr, a.ttl as u64, now);
            proof {
                match crate::cache::spec_insert_reg_index(
                    pre.entries(),
                    av[j as int].0,
                    false,
                    cap,
                ) {
                    Option::Some(rj) => {
                        let er = ExpiryRef::Positive(a.name, rj as usize);
                        lemma_wheel_views_add(
                            pre.spec_expiry(),
                            now as int,
                            a.ttl as int,
                            er,
                            c.spec_expiry(),
                        );
                        assert(spec_ref_view(er) == (av[j as int].0, rj, true)) by {
                            assert(0 <= rj <= cap);
                        }
                        assert(pre.spec_expiry().spec_bucket_of(now as int, a.ttl as int)
                            == w0.spec_bucket_of(now as int, av[j as int].2));
                        assert(spec_wheel_views(c.spec_expiry())
                            =~~= spec_wheel_views(pre.spec_expiry()).update(
                            w0.spec_bucket_of(now as int, av[j as int].2),
                            spec_wheel_views(pre.spec_expiry())[w0.spec_bucket_of(
                                now as int,
                                av[j as int].2,
                            )].push((av[j as int].0, rj, true)),
                        ));
                    },
                    Option::None => {},
                }
            }
        }
        j = j + 1;
    }
    proof {
        lemma_caches_fold_entries(
            old(c).entries(),
            spec_wheel_views(w0),
            w0,
            av,
            0,
            want_v4,
            now as int,
            cap,
        );
    }
}

/// The index `spec_res_find` names is the first match.
pub proof fn lemma_res_find_inv(
    rs: Seq<(Seq<char>, int, Seq<usize>)>,
    name: Seq<char>,
    qtype: int,
)
    requires
        spec_res_find(rs, name, qtype) is Some,
    ensures
        match spec_res_find(rs, name, qtype) {
            Option::Some(i) => {
                &&& 0 <= i < rs.len()
                &&& rs[i].0 == name && rs[i].1 == qtype
                &&& forall|m: int| 0 <= m < i ==> !((#[trigger] rs[m]).0 == name && rs[m].1
                    == qtype)
            },
            Option::None => true,
        },
    decreases rs.len(),
{
    if rs.len() > 0 {
        if rs[0].0 == name && rs[0].1 == qtype {
        } else {
            match spec_res_find(rs.drop_first(), name, qtype) {
                Option::Some(i) => {
                    lemma_res_find_inv(rs.drop_first(), name, qtype);
                    assert forall|m: int|
                        0 <= m < i + 1 implies !((#[trigger] rs[m]).0 == name && rs[m].1
                        == qtype) by {
                        if m > 0 {
                            assert(rs.drop_first()[m - 1] == rs[m]);
                        }
                    }
                },
                Option::None => {},
            }
        }
    }
}

/// Resolver coalescing: when a second caller asks for a name already in
/// flight, it is parked behind the first; the response then wakes both
/// tokens, in the order they asked, each exactly once.
pub proof fn lemma_resolver_coalescing(
    r0: CachingResolver,
    r1: CachingResolver,
    qname: Seq<char>,
    t2: usize,
    now: int,
    promise: ResolvePromise,
    sends: Seq<(bool, Seq<u8>)>,
    woken: Seq<usize>,
)
    requires
        spec_res_find(r0.resolving_view(), spec_normalized(qname), 1) is Some,
        spec_query_post(r0, r1, qname, t2, false, now, promise, sends),
        // what `receive` hands back for a response to this name
        woken == (match spec_res_find(r1.resolving_view(), spec_normalized(qname), 1) {
            Option::Some(j) => r1.resolving_view()[j].2,
            Option::None => Seq::<usize>::empty(),
        }),
    ensures
        promise is Resolving,
        ({
            let i = spec_res_find(r0.resolving_view(), spec_normalized(qname), 1)->0;
            woken =~= r0.resolving_view()[i].2.push(t2)
        }),
{
    let k = spec_normalized(qname);
    let rv = r0.resolving_view();
    let i = spec_res_find(rv, k, 1)->0;
    lemma_res_find_inv(rv, k, 1);
    let rv2 = rv.update(i, (k, 1int, rv[i].2.push(t2)));
    assert(r1.resolving_view() =~= rv2);
    assert forall|m: int| 0 <= m < i implies !((#[trigger] rv2[m]).0 == k && rv2[m].1 == 1) by {
        assert(rv2[m] == rv[m]);
    }
    lemma_res_find_at(rv2, k, 1, i);
}

/// The addresses of `nameserver` lines, in order.
pub open spec fn spec_nameservers(lines: Seq<Seq<char>>) -> Seq<IpAddress>
    decreases lines.len(),
{
    if lines.len() == 0 {
        Seq::empty()
    } else {
        let fs = crate::textutil::spec_fields_from(lines[0], 0);
        (if fs.len() >= 2 && fs[0] == "nameserver"@ {
            match crate::ip::spec_parse_ip(fs[1]) {
                Option::Some(a) => seq![a],
                Option::None => Seq::<IpAddress>::empty(),
            }
        } else {
            Seq::<IpAddress>::empty()
        }) + spec_nameservers(lines.drop_first())
    }
}

} // verus!
