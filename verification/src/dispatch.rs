//! The dispatcher: a fixed pool of WHOIS conversation slots and the
//! decisions that drive them.  The event loop, sockets and sinks live with
//! the caller, which feeds readiness results in and performs the actions
//! handed back: connect a slot, send DNS datagrams, or stop.

use vstd::prelude::*;
use crate::client::{WhoisClient, Status, Availability};
use crate::database::WhoisDatabase;
use crate::resolver::{CachingResolver, ResolvePromise, DnsSend};
use crate::ip::{IpAddress, IpConfig};
use crate::query::WhoisQuery;

verus! {

/// The referral-hop cap: a conversation chain chases at most this many
/// referrals past the first conversation.
pub const MAX_REFERRALS: usize = 5;

/// What the caller must do for a slot after a reassignment decision.
pub enum NextAction {
    /// The input source is exhausted; nothing was assigned.
    EndReached,
    /// The slot waits for a name; send these datagrams, if any.
    AwaitDns(Vec<DnsSend>),
    /// The name does not exist; the slot completed without a conversation.
    Dropped,
    /// Connect the slot's socket to this address, port 43.
    Connect(IpAddress),
    /// No address is known for the slot; it completed without a conversation.
    Failed,
}

/// The pools are equal at every slot but `i`.
pub open spec fn spec_same_but(pre: Seq<WhoisClient>, post: Seq<WhoisClient>, i: int) -> bool {
    &&& post.len() == pre.len()
    &&& forall|m: int| 0 <= m < pre.len() && m != i ==> post[m] == pre[m]
}

/// Equal in every field except the inbound buffer.
pub open spec fn spec_same_except_inbuf(a: WhoisClient, b: WhoisClient) -> bool {
    &&& a.token == b.token
    &&& a.query_str == b.query_str
    &&& a.outbuf == b.outbuf
    &&& a.terminated == b.terminated
    &&& a.dns_tries == b.dns_tries
    &&& a.error == b.error
    &&& a.query == b.query
    &&& a.referral_count == b.referral_count
    &&& a.server == b.server
    &&& a.address == b.address
    &&& a.status == b.status
    &&& a.availability == b.availability
}

/// Equal in every field except the outbound buffer.
pub open spec fn spec_same_except_outbuf(a: WhoisClient, b: WhoisClient) -> bool {
    &&& a.token == b.token
    &&& a.query_str == b.query_str
    &&& a.inbuf == b.inbuf
    &&& a.terminated == b.terminated
    &&& a.dns_tries == b.dns_tries
    &&& a.error == b.error
    &&& a.query == b.query
    &&& a.referral_count == b.referral_count
    &&& a.server == b.server
    &&& a.address == b.address
    &&& a.status == b.status
    &&& a.availability == b.availability
}

/// Equal in every field except the availability verdict.
pub open spec fn spec_same_except_availability(a: WhoisClient, b: WhoisClient) -> bool {
    &&& a.token == b.token
    &&& a.query_str == b.query_str
    &&& a.inbuf == b.inbuf
    &&& a.outbuf == b.outbuf
    &&& a.terminated == b.terminated
    &&& a.dns_tries == b.dns_tries
    &&& a.error == b.error
    &&& a.query == b.query
    &&& a.referral_count == b.referral_count
    &&& a.server == b.server
    &&& a.address == b.address
    &&& a.status == b.status
}

/// What connecting (or failing to connect) slot `i` means: with an address
/// chosen, the slot is rebuilt around the routed query — wire string
/// queued, inbound buffer empty, referral hop count kept only across a
/// referral — and the caller is told to connect; without one, the slot is
/// left as it was and the assignment fails.
pub open spec fn spec_connect_post(
    pre: MassWhois,
    post: MassWhois,
    i: int,
    status: Status,
    query: crate::query::WhoisQuery,
    query_str: String,
    server_name: Option<String>,
    r: NextAction,
    chosen: Option<IpAddress>,
) -> bool {
    match chosen {
        Option::None => r is Failed && post.spec_clients() == pre.spec_clients(),
        Option::Some(ip) => {
            &&& r == NextAction::Connect(ip)
            &&& spec_same_but(pre.spec_clients(), post.spec_clients(), i)
            &&& ({
                let c2 = post.spec_clients()[i];
                &&& c2.address == Some(ip)
                &&& c2.query == query
                &&& c2.query_str == query_str
                &&& c2.server == server_name
                &&& !c2.terminated
                &&& c2.inbuf@ =~= Seq::<u8>::empty()
                &&& c2.outbuf@ =~= vstd::utf8::encode_utf8(query_str@) + seq![10u8]
                &&& c2.status == Status::Initial
                &&& c2.referral_count == (if status == Status::Referral || pre.spec_clients()[
                    i
                ].status == Status::Referral {
                    pre.spec_clients()[i].referral_count as int
                } else {
                    0int
                })
            })
        },
    }
}

/// The configuration a dispatcher step never touches: the database, the
/// pool size, the flags and the fallback servers.
pub open spec fn spec_same_config(pre: MassWhois, post: MassWhois) -> bool {
    &&& post.spec_db() == pre.spec_db()
    &&& post.spec_concurrency() == pre.spec_concurrency()
    &&& post.spec_availability_check() == pre.spec_availability_check()
    &&& post.spec_infer() == pre.spec_infer()
    &&& post.spec_infer_servers() == pre.spec_infer_servers()
    &&& post.spec_fallback_servers() == pre.spec_fallback_servers()
}

/// The dispatcher pool.
pub struct MassWhois {
    concurrency: usize,
    servers: Vec<IpAddress>,
    running: usize,
    clients: Vec<WhoisClient>,
    end_reached: bool,
    pub db: WhoisDatabase,
    infer_servers: bool,
    pub ip_config: IpConfig,
    resolver: CachingResolver,
    infer: bool,
    resolving_names: Vec<String>,
    availability_check: bool,
}

impl MassWhois {
    pub closed spec fn spec_concurrency(self) -> int {
        self.concurrency as int
    }

    pub closed spec fn spec_running(self) -> int {
        self.running as int
    }

    pub closed spec fn spec_end_reached(self) -> bool {
        self.end_reached
    }

    pub closed spec fn spec_clients(self) -> Seq<WhoisClient> {
        self.clients@
    }

    pub closed spec fn spec_resolver(self) -> CachingResolver {
        self.resolver
    }

    pub closed spec fn spec_db(self) -> WhoisDatabase {
        self.db
    }

    pub closed spec fn spec_resolving_names(self) -> Seq<Seq<char>> {
        self.resolving_names@.map_values(|s: String| s@)
    }

    pub closed spec fn spec_availability_check(self) -> bool {
        self.availability_check
    }

    pub closed spec fn spec_infer(self) -> bool {
        self.infer
    }

    pub closed spec fn spec_infer_servers(self) -> bool {
        self.infer_servers
    }

    pub closed spec fn spec_fallback_servers(self) -> Seq<IpAddress> {
        self.servers@
    }

    /// The fallback address slot `i` would use: the slot-rotated entry of
    /// the configured fallback servers, if any.
    pub open spec fn spec_fallback(self, i: int) -> Option<IpAddress> {
        if self.spec_fallback_servers().len() > 0 {
            Some(self.spec_fallback_servers()[i % self.spec_fallback_servers().len() as int])
        } else {
            None
        }
    }

    pub open spec fn wf(self) -> bool {
        &&& self.spec_clients().len() == self.spec_concurrency()
        &&& self.spec_resolving_names().len() == self.spec_concurrency()
        &&& self.spec_resolver().wf()
        &&& self.spec_running() <= self.spec_concurrency()
        &&& forall|m: int|
            0 <= m < self.spec_clients().len() ==> (#[trigger] self.spec_clients()[
                m
            ]).referral_count <= MAX_REFERRALS
    }

    /// A pool of `concurrency` idle slots around the database and resolver.
    pub fn new(
        concurrency: usize,
        ip_config: IpConfig,
        infer_servers: bool,
        infer: bool,
        availability_check: bool,
        db: WhoisDatabase,
        resolver: CachingResolver,
        fallback_servers: Vec<IpAddress>,
    ) -> (r: Self)
        requires
            resolver.wf(),
        ensures
            r.wf(),
            r.spec_concurrency() == concurrency,
            r.spec_running() == 0,
            !r.spec_end_reached(),
            r.spec_db() == db,
            r.spec_resolver() == resolver,
            r.spec_availability_check() == availability_check,
            r.spec_infer() == infer,
            r.spec_infer_servers() == infer_servers,
            r.spec_fallback_servers() == fallback_servers@,
            forall|m: int|
                0 <= m < r.spec_clients().len() ==> !(#[trigger] r.spec_clients()[m]).terminated
                    && r.spec_clients()[m].referral_count == 0,
    {
        let mut clients: Vec<WhoisClient> = Vec::with_capacity(concurrency);
        let mut resolving_names: Vec<String> = Vec::with_capacity(concurrency);
        let mut i: usize = 0;
        while i < concurrency
            invariant
                i <= concurrency,
                clients@.len() == i,
                resolving_names@.len() == i,
                forall|m: int|
                    0 <= m < i ==> !(#[trigger] clients@[m]).terminated && clients@[
                        m
                    ].referral_count == 0,
            decreases concurrency - i,
        {
            resolving_names.push(String::new());
            clients.push(
                WhoisClient::new(
                    i,
                    WhoisQuery::Unspecified(String::new()),
                    String::new(),
                    Some(IpAddress::V4(0x7f00_0001)),
                    Some(String::new()),
                ),
            );
            i = i + 1;
        }
        MassWhois {
            concurrency,
            servers: fallback_servers,
            running: 0,
            clients,
            end_reached: false,
            db,
            infer_servers,
            ip_config,
            resolver,
            infer,
            resolving_names,
            availability_check,
        }
    }

    /// Whether the loop is done: input exhausted and no conversation live.
    pub fn check_termination(&self) -> (r: bool)
        ensures
            r == (self.spec_end_reached() && self.spec_running() == 0),
    {
        self.end_reached && self.running == 0
    }

    pub fn client_count(&self) -> (r: usize)
        ensures
            r == self.spec_concurrency(),
    {
        self.concurrency
    }

    pub fn is_end_reached(&self) -> (r: bool)
        ensures
            r == self.spec_end_reached(),
    {
        self.end_reached
    }

    /// The slot's record, for the output sinks.
    pub fn client(&self, i: usize) -> (r: &WhoisClient)
        requires
            i < self.spec_clients().len(),
        ensures
            *r == self.spec_clients()[i as int],
    {
        &self.clients[i]
    }

    /// The first upstream DNS server, where the caller sends datagrams.
    pub fn dns_server(&self) -> (r: Option<IpAddress>)
        ensures
            self.spec_resolver().spec_servers().len() == 0 ==> r is None,
            self.spec_resolver().spec_servers().len() > 0 ==> r == Some(
                self.spec_resolver().spec_servers()[0],
            ),
    {
        self.resolver.first_server()
    }

    /// Appends bytes the slot's socket delivered to its inbound buffer.
    pub fn feed_inbound(&mut self, i: usize, data: &[u8])
        requires
            old(self).wf(),
            i < old(self).spec_clients().len(),
        ensures
            final(self).wf(),
            spec_same_but(old(self).spec_clients(), final(self).spec_clients(), i as int),
            spec_same_except_inbuf(
                old(self).spec_clients()[i as int],
                final(self).spec_clients()[i as int],
            ),
            final(self).spec_clients()[i as int].inbuf@ =~= old(self).spec_clients()[
                i as int
            ].inbuf@ + data@,
            final(self).spec_resolver() == old(self).spec_resolver(),
            final(self).spec_running() == old(self).spec_running(),
            final(self).spec_end_reached() == old(self).spec_end_reached(),
            final(self).spec_resolving_names() == old(self).spec_resolving_names(),
            spec_same_config(*old(self), *final(self)),
    {
        let ghost pre = self.clients@;
        let mut c = self.clients.remove(i);
        let ghost inb = c.inbuf@;
        let mut j: usize = 0;
        while j < data.len()
            invariant
                j <= data@.len(),
                i < pre.len(),
                spec_same_except_inbuf(pre[i as int], c),
                c.inbuf@ =~= inb + data@.subrange(0, j as int),
            decreases data@.len() - j,
        {
            proof {
                assert(data@.subrange(0, j + 1) =~= data@.subrange(0, j as int).push(
                    data@[j as int],
                ));
            }
            c.inbuf.push(data[j]);
            j = j + 1;
        }
        proof {
            assert(data@.subrange(0, data@.len() as int) =~= data@);
        }
        self.clients.insert(i, c);
        proof {
            assert(self.clients@[i as int] == c);
            assert(self.clients@ =~= pre.remove(i as int).insert(i as int, c));
        }
    }

    /// Takes the bytes queued for the slot's socket; they are now the
    /// caller's to write.
    pub fn take_outbound(&mut self, i: usize) -> (r: Vec<u8>)
        requires
            old(self).wf(),
            i < old(self).spec_clients().len(),
        ensures
            final(self).wf(),
            r@ == old(self).spec_clients()[i as int].outbuf@,
            final(self).spec_clients()[i as int].outbuf@ =~= Seq::<u8>::empty(),
            spec_same_but(old(self).spec_clients(), final(self).spec_clients(), i as int),
            spec_same_except_outbuf(
                old(self).spec_clients()[i as int],
                final(self).spec_clients()[i as int],
            ),
            final(self).spec_resolver() == old(self).spec_resolver(),
            final(self).spec_running() == old(self).spec_running(),
            final(self).spec_end_reached() == old(self).spec_end_reached(),
            final(self).spec_resolving_names() == old(self).spec_resolving_names(),
            spec_same_config(*old(self), *final(self)),
    {
        let ghost pre = self.clients@;
        let mut c = self.clients.remove(i);
        let out: Vec<u8> = c.outbuf;
        c.outbuf = Vec::new();
        self.clients.insert(i, c);
        proof {
            assert(self.clients@[i as int] == c);
            assert(self.clients@ =~= pre.remove(i as int).insert(i as int, c));
        }
        out
    }

    /// On hang-up with the availability check on, classifies the response
    /// body.
    pub fn classify(&mut self, i: usize)
        requires
            old(self).wf(),
            i < old(self).spec_clients().len(),
        ensures
            final(self).wf(),
            spec_same_but(old(self).spec_clients(), final(self).spec_clients(), i as int),
            spec_same_except_availability(
                old(self).spec_clients()[i as int],
                final(self).spec_clients()[i as int],
            ),
            old(self).spec_availability_check() ==> ((final(self).spec_clients()[
                i as int
            ].availability == Availability::AVAILABLE) <==> exists|m: int|
                0 <= m < old(self).spec_db().availability_patterns().len() && crate::database::regex_matches(
                    #[trigger] old(self).spec_db().availability_patterns()[m],
                    old(self).spec_clients()[i as int].inbuf@,
                )),
            !old(self).spec_availability_check() ==> final(self).spec_clients()[i as int]
                == old(self).spec_clients()[i as int],
            final(self).spec_resolver() == old(self).spec_resolver(),
            final(self).spec_running() == old(self).spec_running(),
            final(self).spec_end_reached() == old(self).spec_end_reached(),
            final(self).spec_resolving_names() == old(self).spec_resolving_names(),
            spec_same_config(*old(self), *final(self)),
    {
        let ghost pre = self.clients@;
        if self.availability_check {
            let verdict = self.db.availability(&self.clients[i]);
            let mut c = self.clients.remove(i);
            c.availability = verdict;
            self.clients.insert(i, c);
            proof {
                assert(self.clients@[i as int] == c);
                assert(self.clients@[i as int].availability == verdict);
                assert(self.clients@ =~= pre.remove(i as int).insert(i as int, c));
                let pats = old(self).spec_db().availability_patterns();
                let body = pre[i as int].inbuf@;
                if verdict == Availability::AVAILABLE {
                    let w = choose|m: int|
                        0 <= m < pats.len() && crate::database::regex_matches(
                            #[trigger] pats[m],
                            body,
                        );
                    assert(0 <= w < pats.len() && crate::database::regex_matches(pats[w], body));
                } else {
                    if exists|m: int|
                        0 <= m < pats.len() && crate::database::regex_matches(
                            #[trigger] pats[m],
                            body,
                        ) {
                        let w = choose|m: int|
                            0 <= m < pats.len() && crate::database::regex_matches(
                                #[trigger] pats[m],
                                body,
                            );
                        assert(crate::database::regex_matches(pats[w], body));
                        assert(false);
                    }
                }
            }
        }
    }

    /// On hang-up: marks the slot terminated and decides what follows.  A
    /// referral is chased only when the current server's pattern captures a
    /// next server, the availability check is off, and fewer than
    /// `MAX_REFERRALS` hops were taken; then the slot's server is replaced
    /// and its status becomes `Referral`.  Returns the staged reassignment,
    /// or `None` for a slot that had already terminated.
    pub fn hup_decision(&mut self, i: usize) -> (r: Option<Status>)
        requires
            old(self).wf(),
            i < old(self).spec_clients().len(),
        ensures
            final(self).wf(),
            final(self).spec_resolver() == old(self).spec_resolver(),
            final(self).spec_running() == old(self).spec_running(),
            final(self).spec_end_reached() == old(self).spec_end_reached(),
            final(self).spec_resolving_names() == old(self).spec_resolving_names(),
            spec_same_config(*old(self), *final(self)),
            ({
                let c = old(self).spec_clients()[i as int];
                if c.terminated {
                    r is None && final(self).spec_clients() == old(self).spec_clients()
                } else {
                    let referral = match c.server {
                        Option::Some(srv) => crate::database::spec_assoc(
                            old(self).spec_db().referrals(),
                            srv@,
                        ) matches Some(pat) && crate::database::regex_capture(
                            pat,
                            c.inbuf@,
                        ) is Some,
                        Option::None => false,
                    };
                    let takes = referral && !old(self).spec_availability_check()
                        && c.referral_count < MAX_REFERRALS;
                    let c2 = final(self).spec_clients()[i as int];
                    &&& spec_same_but(old(self).spec_clients(), final(self).spec_clients(), i as int)
                    &&& c2.terminated
                    &&& c2.inbuf == c.inbuf
                    &&& c2.query == c.query
                    &&& (if takes {
                        &&& r == Some(Status::Referral)
                        &&& c2.status == Status::Referral
                        &&& c2.referral_count == c.referral_count + 1
                        &&& (c2.server matches Some(s2) && (match c.server {
                            Option::Some(srv) => crate::database::regex_capture(
                                crate::database::spec_assoc(
                                    old(self).spec_db().referrals(),
                                    srv@,
                                )->0,
                                c.inbuf@,
                            ) == Some(s2@),
                            Option::None => false,
                        }))
                    } else {
                        &&& r == Some(Status::Other)
                        &&& c2.server == c.server
                        &&& c2.status == c.status
                        &&& c2.referral_count == c.referral_count
                    })
                }
            }),
    {
        let ghost pre = self.clients@;
        if self.clients[i].terminated {
            return None;
        }
        let referral = self.db.get_referral_server(&self.clients[i]);
        let mut c = self.clients.remove(i);
        c.terminated = true;
        let r: Status;
        if referral.is_some() && !self.availability_check && c.referral_count < MAX_REFERRALS {
            c.server = referral;
            c.status = Status::Referral;
            c.referral_count = c.referral_count + 1;
            r = Status::Referral;
        } else {
            r = Status::Other;
        }
        self.clients.insert(i, c);
        proof {
            assert(self.clients@[i as int] == c);
            assert(self.clients@ =~= pre.remove(i as int).insert(i as int, c));
        }
        Some(r)
    }

    /// Hands one arrived DNS datagram to the resolver; the tokens handed
    /// back are the slots to wake with a `DNS` reassignment.
    pub fn dns_receive(&mut self, datagram: &[u8], now: u64) -> (r: Vec<usize>)
        requires
            old(self).wf(),
            old(self).spec_resolver().spec_time_ok(now as int),
            now < 0x4000_0000_0000_0000,
        ensures
            final(self).wf(),
            final(self).spec_clients() == old(self).spec_clients(),
            final(self).spec_end_reached() == old(self).spec_end_reached(),
            final(self).spec_running() == old(self).spec_running(),
            final(self).spec_resolving_names() == old(self).spec_resolving_names(),
            spec_same_config(*old(self), *final(self)),
            final(self).spec_resolver().spec_time_ok(now as int),
            ({
                match crate::dnswire::spec_parse_response(datagram@) {
                    Option::None => r@.len() == 0,
                    Option::Some(resp) => {
                        if resp.2 != 1 && resp.2 != 28 {
                            r@.len() == 0
                        } else {
                            let rv = old(self).spec_resolver().resolving_view();
                            match crate::resolver::spec_res_find(rv, resp.1, resp.2) {
                                Option::Some(i) => r@ == rv[i].2,
                                Option::None => r@.len() == 0,
                            }
                        }
                    },
                }
            }),
    {
        self.resolver.receive(datagram, now)
    }

    /// Reassigns slot `i` after a completion or a DNS wake.  `Initial` and
    /// `Other` pull the given next input line; `DNS` and `Referral` reuse
    /// the slot's pending name or referral target.  The database routes the
    /// query, the resolver names the server's address; the caller performs
    /// the action handed back.  A slot chased through a referral keeps its
    /// hop count; any other assignment starts at zero.
    #[verifier::rlimit(100)]
    pub fn next_client(
        &mut self,
        i: usize,
        status: Status,
        next_input: Option<String>,
        now: u64,
    ) -> (r: NextAction)
        requires
            old(self).wf(),
            i < old(self).spec_clients().len(),
            old(self).spec_resolver().spec_time_ok(now as int),
            now < 0x4000_0000_0000_0000,
            status == Status::Initial ==> old(self).spec_running() < old(self).spec_concurrency(),
        ensures
            final(self).wf(),
            final(self).spec_db() == old(self).spec_db(),
            final(self).spec_concurrency() == old(self).spec_concurrency(),
            final(self).spec_availability_check() == old(self).spec_availability_check(),
            final(self).spec_infer() == old(self).spec_infer(),
            final(self).spec_infer_servers() == old(self).spec_infer_servers(),
            final(self).spec_fallback_servers() == old(self).spec_fallback_servers(),
            final(self).spec_resolver().spec_time_ok(now as int),
            ({
                let needs_input = status != Status::DNS && status != Status::Referral;
                let run1 = if status != Status::Initial && old(self).spec_running() > 0 {
                    old(self).spec_running() - 1
                } else {
                    old(self).spec_running()
                };
                let run2 = if run1 < old(self).spec_concurrency() {
                    run1 + 1
                } else {
                    run1
                };
                let orig = if needs_input {
                    next_input->0@
                } else {
                    old(self).spec_resolving_names()[i as int]
                };
                let unspec = !old(self).spec_infer();
                let take_referral = status == Status::Referral || old(self).spec_clients()[
                    i as int
                ].status == Status::Referral;
                let srv = if !take_referral {
                    old(self).spec_db().spec_route(orig, unspec).0
                } else {
                    match old(self).spec_clients()[i as int].server {
                        Option::Some(s) => Some(s@),
                        Option::None => None,
                    }
                };
                let wire = if !take_referral {
                    old(self).spec_db().spec_route(orig, unspec).1
                } else {
                    crate::query::spec_classified_text(orig, unspec)
                };
                &&& ((r is EndReached) <==> (needs_input && next_input is None))
                &&& (r is EndReached ==> final(self).spec_end_reached()
                    && final(self).spec_clients() == old(self).spec_clients()
                    && final(self).spec_resolver() == old(self).spec_resolver()
                    && final(self).spec_running() == run1)
                &&& (!(r is EndReached)
                    ==> final(self).spec_end_reached() == old(self).spec_end_reached())
                &&& (r is AwaitDns ==> final(self).spec_resolving_names() =~= old(
                    self,
                ).spec_resolving_names().update(i as int, orig))
                &&& (!(r is AwaitDns) ==> final(self).spec_resolving_names() == old(
                    self,
                ).spec_resolving_names())
                &&& ((r is AwaitDns || r matches NextAction::Connect(_))
                    ==> final(self).spec_running() == run2)
                &&& ((r is Dropped || r is Failed) ==> final(self).spec_running() == (
                if run2 > 0 {
                    run2 - 1
                } else {
                    0int
                }))
                &&& (r matches NextAction::Connect(ip) ==> {
                    let c2 = final(self).spec_clients()[i as int];
                    &&& spec_same_but(old(self).spec_clients(), final(self).spec_clients(), i as int)
                    &&& c2.address == Some(ip)
                    &&& !c2.terminated
                    &&& c2.inbuf@ =~= Seq::<u8>::empty()
                    &&& c2.query_str@ == wire
                    &&& c2.outbuf@ =~= vstd::utf8::encode_utf8(wire) + seq![10u8]
                    &&& (c2.server is Some) == (srv is Some)
                    &&& (c2.server matches Some(sn) ==> srv == Some(sn@))
                    &&& c2.query.spec_get_type() == crate::query::spec_classified_type(
                        orig,
                        unspec,
                    )
                    &&& c2.query.spec_text() == crate::query::spec_classified_text(orig, unspec)
                    &&& c2.status == Status::Initial
                    &&& c2.referral_count == (if take_referral {
                        old(self).spec_clients()[i as int].referral_count as int
                    } else {
                        0int
                    })
                })
                &&& (r is AwaitDns ==> final(self).spec_clients() == old(self).spec_clients())
                &&& ((r is Dropped || r is Failed)
                    ==> final(self).spec_clients() == old(self).spec_clients())
                &&& (!(r is EndReached) ==> match srv {
                    Option::None => {
                        &&& final(self).spec_resolver() == old(self).spec_resolver()
                        &&& !(r is AwaitDns) && !(r is Dropped)
                        &&& ((r is Failed) <==> (old(self).spec_fallback(i as int) is None))
                        &&& (r matches NextAction::Connect(ip) ==> Some(ip) == old(
                            self,
                        ).spec_fallback(i as int))
                    },
                    Option::Some(k0) => match old(self).spec_resolver().spec_answer(
                        k0,
                        status == Status::DNS,
                        now as int,
                    ) {
                        Option::None => r is AwaitDns && (r matches NextAction::AwaitDns(sends)
                            ==> crate::resolver::spec_query_post(
                            old(self).spec_resolver(),
                            final(self).spec_resolver(),
                            k0,
                            i,
                            status == Status::DNS,
                            now as int,
                            ResolvePromise::Resolving,
                            sends@.map_values(|d: DnsSend| (d.v6, d.payload@)),
                        )),
                        Option::Some(a) => {
                            &&& crate::resolver::spec_query_post(
                                old(self).spec_resolver(),
                                final(self).spec_resolver(),
                                k0,
                                i,
                                status == Status::DNS,
                                now as int,
                                ResolvePromise::Resolved(i, a),
                                Seq::<(bool, Seq<u8>)>::empty(),
                            )
                            &&& match a {
                                Option::None => r is Dropped,
                                Option::Some(ip0) => {
                                    let chosen = if old(self).spec_infer_servers() {
                                        Some(ip0)
                                    } else {
                                        old(self).spec_fallback(i as int)
                                    };
                                    match chosen {
                                        Option::None => r is Failed,
                                        Option::Some(ip) => r == NextAction::Connect(ip),
                                    }
                                },
                            }
                        },
                    },
                })
            }),
    {
        if status != Status::Initial {
            if self.running > 0 {
                self.running = self.running - 1;
            }
        }
        let needs_input = status != Status::DNS && status != Status::Referral;
        let orig_str: String = if needs_input {
            match next_input {
                None => {
                    self.end_reached = true;
                    return NextAction::EndReached;
                },
                Some(s) => s,
            }
        } else {
            self.resolving_names[i].clone()
        };
        let query = WhoisQuery::new(orig_str.clone(), !self.infer);
        let take_referral: bool = status == Status::Referral || match self.clients[i].status {
            Status::Referral => true,
            _ => false,
        };
        let (server_name, query_str): (Option<String>, String) = if !take_referral {
            let routed = self.db.get_server(&query);
            proof {
                crate::database::lemma_route_is_get_server(
                    self.db,
                    query,
                    orig_str@,
                    !self.infer,
                );
            }
            routed
        } else {
            let sn: Option<String> = match &self.clients[i].server {
                Some(s) => Some(s.clone()),
                None => None,
            };
            (sn, query.to_string())
        };
        if self.running < self.concurrency {
            self.running = self.running + 1;
        }
        self.finish_assign(i, status, orig_str, query, query_str, server_name, now)
    }

    /// Names an address for the routed slot and either connects it, parks
    /// it on a pending name, or completes it without a conversation.
    fn finish_assign(
        &mut self,
        i: usize,
        status: Status,
        orig_str: String,
        query: WhoisQuery,
        query_str: String,
        server_name: Option<String>,
        now: u64,
    ) -> (r: NextAction)
        requires
            old(self).wf(),
            i < old(self).spec_clients().len(),
            old(self).spec_resolver().spec_time_ok(now as int),
            now < 0x4000_0000_0000_0000,
        ensures
            final(self).wf(),
            final(self).spec_db() == old(self).spec_db(),
            final(self).spec_concurrency() == old(self).spec_concurrency(),
            final(self).spec_availability_check() == old(self).spec_availability_check(),
            final(self).spec_infer() == old(self).spec_infer(),
            final(self).spec_infer_servers() == old(self).spec_infer_servers(),
            final(self).spec_fallback_servers() == old(self).spec_fallback_servers(),
            final(self).spec_resolver().spec_time_ok(now as int),
            final(self).spec_end_reached() == old(self).spec_end_reached(),
            !(r is EndReached),
            r is AwaitDns ==> final(self).spec_resolving_names() =~= old(
                self,
            ).spec_resolving_names().update(i as int, orig_str@),
            !(r is AwaitDns) ==> final(self).spec_resolving_names() == old(
                self,
            ).spec_resolving_names(),
            (r is AwaitDns || r matches NextAction::Connect(_)) ==> final(self).spec_running()
                == old(self).spec_running(),
            (r is Dropped || r is Failed) ==> final(self).spec_running() == (
            if old(self).spec_running() > 0 {
                old(self).spec_running() - 1
            } else {
                0int
            }),
            (r is AwaitDns ==> final(self).spec_clients() == old(self).spec_clients()),
            ((r is Dropped || r is Failed) ==> final(self).spec_clients() == old(
                self,
            ).spec_clients()),
            ({
                match server_name {
                    Option::None => final(self).spec_resolver() == old(self).spec_resolver()
                        && spec_connect_post(
                        *old(self),
                        *final(self),
                        i as int,
                        status,
                        query,
                        query_str,
                        server_name,
                        r,
                        old(self).spec_fallback(i as int),
                    ),
                    Option::Some(name) => match old(self).spec_resolver().spec_answer(
                        name@,
                        status == Status::DNS,
                        now as int,
                    ) {
                        Option::None => r matches NextAction::AwaitDns(sends)
                            && crate::resolver::spec_query_post(
                            old(self).spec_resolver(),
                            final(self).spec_resolver(),
                            name@,
                            i,
                            status == Status::DNS,
                            now as int,
                            ResolvePromise::Resolving,
                            sends@.map_values(|d: DnsSend| (d.v6, d.payload@)),
                        ),
                        Option::Some(a) => {
                            &&& crate::resolver::spec_query_post(
                                old(self).spec_resolver(),
                                final(self).spec_resolver(),
                                name@,
                                i,
                                status == Status::DNS,
                                now as int,
                                ResolvePromise::Resolved(i, a),
                                Seq::<(bool, Seq<u8>)>::empty(),
                            )
                            &&& match a {
                                Option::None => r is Dropped,
                                Option::Some(ip0) => spec_connect_post(
                                    *old(self),
                                    *final(self),
                                    i as int,
                                    status,
                                    query,
                                    query_str,
                                    server_name,
                                    r,
                                    if old(self).spec_infer_servers() {
                                        Some(ip0)
                                    } else {
                                        old(self).spec_fallback(i as int)
                                    },
                                ),
                            }
                        },
                    },
                }
            }),
    {
        let mut server: Option<IpAddress> = None;
        let ghost ans = match &server_name {
            Option::Some(n) => Some(
                old(self).spec_resolver().spec_answer(n@, status == Status::DNS, now as int),
            ),
            Option::None => None,
        };
        match &server_name {
            Some(name) => {
                let (promise, sends) = self.resolver.query(
                    name.clone(),
                    i,
                    status == Status::DNS,
                    now,
                );
                match promise {
                    ResolvePromise::Resolving => {
                        let ghost names = self.resolving_names@;
                        let mut nn = self.resolving_names.remove(i);
                        nn = orig_str;
                        self.resolving_names.insert(i, nn);
                        proof {
                            assert(self.resolving_names@[i as int] == nn);
                            assert(self.spec_resolving_names() =~= old(
                                self,
                            ).spec_resolving_names().update(i as int, nn@));
                        }
                        return NextAction::AwaitDns(sends);
                    },
                    ResolvePromise::Resolved(_, addr) => {
                        match addr {
                            None => {
                                if self.running > 0 {
                                    self.running = self.running - 1;
                                }
                                proof {
                                    assert(promise == ResolvePromise::Resolved(i, ans->0->0));
                                }
                                return NextAction::Dropped;
                            },
                            Some(ip) => {
                                proof {
                                    assert(promise == ResolvePromise::Resolved(i, ans->0->0));
                                    assert(ans->0->0 == Some(ip));
                                }
                                server = Some(ip);
                            },
                        }
                    },
                }
            },
            None => {},
        }
        if !self.infer_servers || server.is_none() {
            server = if self.servers.len() > 0 {
                Some(self.servers[i % self.servers.len()])
            } else {
                None
            };
        }
        proof {
            match &server_name {
                Option::Some(n) => {
                    assert(server == (if old(self).spec_infer_servers() {
                        Some(ans->0->0->0)
                    } else {
                        old(self).spec_fallback(i as int)
                    }));
                },
                Option::None => {
                    assert(server == old(self).spec_fallback(i as int));
                },
            }
        }
        match server {
            None => {
                if self.running > 0 {
                    self.running = self.running - 1;
                }
                NextAction::Failed
            },
            Some(ip) => {
                let hops: usize = if status == Status::Referral || match self.clients[i].status {
                    Status::Referral => true,
                    _ => false,
                } {
                    self.clients[i].referral_count
                } else {
                    0
                };
                let mut fresh = WhoisClient::new(i, query, query_str, Some(ip), server_name);
                fresh.referral_count = hops;
                let ghost pre = self.clients@;
                let _old = self.clients.remove(i);
                self.clients.insert(i, fresh);
                proof {
                    assert(self.clients@[i as int].address == Some(ip));
                    assert(self.clients@ =~= pre.remove(i as int).insert(
                        i as int,
                        self.clients@[i as int],
                    ));
                }
                NextAction::Connect(ip)
            },
        }
    }
}

} // verus!
