use vstd::prelude::*;

use crate::flags::Flags;
use crate::label::name_segments;
use crate::net::{is_same_network, same_network, IpAddr, SocketAddr};
use crate::query::{Answer, AnswerView, QClass, QType, Query, QueryView};
use crate::reqres::{
    answer_views, enc_message, message_from, query_views, Message, MessageView, Request,
    RequestView, Response, ResponseView,
};
use crate::service_info::{assemble, service_answers, service_views, ServiceInfo, ServiceView};
use crate::time::Time;

verus! {

/// Milliseconds between two advertise rounds.
pub const ADVERTISE_INTERVAL: u64 = 15_000;

/// Milliseconds between two query rounds.
pub const QUERY_INTERVAL: u64 = 19_000;

/// When the first advertise round is due.
pub const ADVERTISE_DELAY: u64 = 3000;

/// When the first query round is due.
pub const QUERY_DELAY: u64 = 5000;

/// How to send an outgoing packet.
#[derive(Debug, Clone, Copy, PartialEq, Eq, Structural)]
pub enum Cast {
    /// To the mDNS multicast group, from the interface of `from`.
    Multi { from: IpAddr },
    /// To `target`, from the interface of `from`.
    Uni { from: IpAddr, target: SocketAddr },
}

/// What the host hands the server.
#[derive(Debug)]
pub enum Input<'x> {
    /// The clock reading now; it may come at any time.
    Timeout(Time),
    /// A datagram and where it came from.
    Packet(&'x [u8], SocketAddr),
}

/// What the server asks of the host.
#[derive(Debug)]
pub enum Output<const LLEN: usize> {
    /// Send the first bytes of the buffer, as many as given, as the cast says.
    Packet(usize, Cast),
    /// Hand in a timeout at this time, or earlier.
    Timeout(Time),
    /// A remote instance of a locally declared service type was found.
    Remote(ServiceInfo<LLEN>),
}

/// What a step of the server decides, before it is written out.
pub enum Outcome {
    Send(MessageView, Cast),
    Wait(u64),
    Found(ServiceView),
}

/// An address and netmask that local services use.
#[derive(Debug, Clone, Copy, PartialEq, Eq, Structural)]
pub struct LocalIp {
    pub addr: IpAddr,
    pub mask: IpAddr,
}

/// The server's state, as a value.
pub struct ServerView {
    pub last_now: u64,
    pub services: Seq<ServiceView>,
    pub local_ips: Seq<LocalIp>,
    pub next_advertise: u64,
    pub next_advertise_idx: nat,
    pub next_query: u64,
    pub next_query_idx: nat,
    pub txid_query: u16,
    pub next_txid: u16,
}

/// The mDNS server: advertises the local services, queries for remote
/// instances of their types, answers queries, and reports what it finds.
pub struct Server<const QLEN: usize, const ALEN: usize, const LLEN: usize, const SLEN: usize, const LK: usize> {
    last_now: Time,
    services: Vec<ServiceInfo<LLEN>>,
    local_ips: Vec<LocalIp>,
    next_advertise: Time,
    next_advertise_idx: usize,
    next_query: Time,
    next_query_idx: usize,
    txid_query: u16,
    next_txid: u16,
}

/// The distinct address and netmask pairs of `ss`, in order of first use.
pub open spec fn local_ips_of(ss: Seq<ServiceView>) -> Seq<LocalIp>
    decreases ss.len(),
{
    if ss.len() == 0 {
        Seq::empty()
    } else {
        let d = local_ips_of(ss.drop_last());
        let l = LocalIp { addr: ss.last().ip_address, mask: ss.last().netmask };
        if d.contains(l) {
            d
        } else {
            d.push(l)
        }
    }
}

/// `xs` cut to at most `n` items.
pub open spec fn at_most<A>(xs: Seq<A>, n: nat) -> Seq<A> {
    if xs.len() <= n {
        xs
    } else {
        xs.take(n as int)
    }
}

/// The services of `ss` on the address and netmask of `l`, in order.
pub open spec fn services_on(ss: Seq<ServiceView>, l: LocalIp) -> Seq<ServiceView>
    decreases ss.len(),
{
    if ss.len() == 0 {
        Seq::empty()
    } else {
        let d = services_on(ss.drop_last(), l);
        if ss.last().ip_address == l.addr && ss.last().netmask == l.mask {
            d.push(ss.last())
        } else {
            d
        }
    }
}

/// The announcing records of all of `ss`, one service after the other.
pub open spec fn all_answers(ss: Seq<ServiceView>, aclass: QClass) -> Seq<AnswerView>
    decreases ss.len(),
{
    if ss.len() == 0 {
        Seq::empty()
    } else {
        all_answers(ss.drop_last(), aclass) + service_answers(ss.last(), aclass)
    }
}

/// One PTR question of class IN for the type of each of `ss`.
pub open spec fn type_queries(ss: Seq<ServiceView>) -> Seq<QueryView>
    decreases ss.len(),
{
    if ss.len() == 0 {
        Seq::empty()
    } else {
        type_queries(ss.drop_last()).push(
            QueryView { name: ss.last().service_type, qtype: QType::PTR, qclass: QClass::IN },
        )
    }
}

/// The announcement for the interface `l`: a response with id 0, no
/// questions, and the records of its services with the cache-flush class.
pub open spec fn advertise_message(ss: Seq<ServiceView>, l: LocalIp, alen: nat) -> MessageView {
    MessageView::Response(
        ResponseView {
            id: 0,
            flags: 0x8400,
            queries: Seq::empty(),
            answers: at_most(all_answers(services_on(ss, l), QClass::Multicast), alen),
        },
    )
}

/// The query for the interface `l`: a request with the given id and a PTR
/// question for the type of each of its services.
pub open spec fn query_message(ss: Seq<ServiceView>, l: LocalIp, id: u16, qlen: nat) -> MessageView {
    MessageView::Request(
        RequestView { id, flags: 0x0100, queries: at_most(type_queries(services_on(ss, l)), qlen) },
    )
}

/// The earlier of the two deadlines.
pub open spec fn poll_time(s: ServerView) -> u64 {
    if s.next_advertise <= s.next_query {
        s.next_advertise
    } else {
        s.next_query
    }
}

/// `t` moved `ms` later, held at the largest time.
pub open spec fn later(t: u64, ms: u64) -> u64 {
    if t + ms <= u64::MAX {
        (t + ms) as u64
    } else {
        u64::MAX
    }
}

/// The transaction id after `id`, wrapping.
pub open spec fn next_id(id: u16) -> u16 {
    if id == 0xffff {
        0
    } else {
        (id + 1) as u16
    }
}

/// Whether the state is one that the server can be in.
pub open spec fn server_wf(s: ServerView, slen: nat) -> bool {
    &&& s.services.len() <= slen
    &&& s.local_ips == local_ips_of(s.services)
    &&& (s.local_ips.len() == 0 ==> s.next_advertise_idx == 0 && s.next_query_idx == 0)
    &&& (s.local_ips.len() > 0 ==> s.next_advertise_idx < s.local_ips.len() && s.next_query_idx
        < s.local_ips.len())
}

/// The state after a timeout at `now`, and what it asks for. A due advertise
/// round goes first: one interface per call, and after the last one the next
/// round is set `ADVERTISE_INTERVAL` after `now`. Else a due query round goes
/// the same way. Else the server waits for its next deadline. Without local
/// interfaces a due round ends at once.
pub open spec fn on_timeout(s: ServerView, now: u64, qlen: nat, alen: nat) -> (ServerView, Outcome) {
    let s1 = ServerView { last_now: now, ..s };
    if now >= s.next_advertise {
        if s.local_ips.len() == 0 {
            let s2 = ServerView { next_advertise: later(now, ADVERTISE_INTERVAL), next_advertise_idx: 0, ..s1 };
            (s2, Outcome::Wait(poll_time(s2)))
        } else {
            let l = s.local_ips[s.next_advertise_idx as int];
            let i = s.next_advertise_idx + 1;
            let s2 = if i == s.local_ips.len() {
                ServerView { next_advertise: later(now, ADVERTISE_INTERVAL), next_advertise_idx: 0, ..s1 }
            } else {
                ServerView { next_advertise_idx: i, ..s1 }
            };
            (s2, Outcome::Send(advertise_message(s.services, l, alen), Cast::Multi { from: l.addr }))
        }
    } else if now >= s.next_query {
        if s.local_ips.len() == 0 {
            let s2 = ServerView { next_query: later(now, QUERY_INTERVAL), next_query_idx: 0, ..s1 };
            (s2, Outcome::Wait(poll_time(s2)))
        } else {
            let l = s.local_ips[s.next_query_idx as int];
            let i = s.next_query_idx + 1;
            let s2 = ServerView { txid_query: s.next_txid, next_txid: next_id(s.next_txid), ..s1 };
            let s3 = if i == s.local_ips.len() {
                ServerView { next_query: later(now, QUERY_INTERVAL), next_query_idx: 0, ..s2 }
            } else {
                ServerView { next_query_idx: i, ..s2 }
            };
            (s3, Outcome::Send(query_message(s.services, l, s.next_txid, qlen), Cast::Multi { from: l.addr }))
        }
    } else {
        (s1, Outcome::Wait(poll_time(s1)))
    }
}

/// Whether a question asks for the service `s`, from an address in its network.
pub open spec fn query_matches(q: QueryView, s: ServiceView, from: IpAddr) -> bool {
    &&& q.qtype == QType::PTR
    &&& name_segments(q.name) == name_segments(s.service_type)
    &&& same_network(s.ip_address, s.netmask, from)
}

/// The records that answer `q`: those of each service of `ss` that it asks for.
pub open spec fn answers_for_query(q: QueryView, ss: Seq<ServiceView>, from: IpAddr, aclass: QClass) -> Seq<AnswerView>
    decreases ss.len(),
{
    if ss.len() == 0 {
        Seq::empty()
    } else {
        answers_for_query(q, ss.drop_last(), from, aclass) + if query_matches(q, ss.last(), from) {
            service_answers(ss.last(), aclass)
        } else {
            Seq::empty()
        }
    }
}

/// The records that answer each of `qs`, one question after the other.
pub open spec fn answers_for_queries(qs: Seq<QueryView>, ss: Seq<ServiceView>, from: IpAddr, aclass: QClass) -> Seq<AnswerView>
    decreases qs.len(),
{
    if qs.len() == 0 {
        Seq::empty()
    } else {
        answers_for_queries(qs.drop_last(), ss, from, aclass) + answers_for_query(qs.last(), ss, from, aclass)
    }
}

/// The first local interface whose network holds `from`.
pub open spec fn first_local(ls: Seq<LocalIp>, from: IpAddr) -> Option<LocalIp>
    decreases ls.len(),
{
    if ls.len() == 0 {
        None
    } else {
        match first_local(ls.drop_last(), from) {
            Some(l) => Some(l),
            None => if same_network(ls.last().addr, ls.last().mask, from) {
                Some(ls.last())
            } else {
                None
            },
        }
    }
}

/// What a query message from `from` asks of the server. It is ignored when
/// it has no question or carries the id of the server's own last query.
/// Else the class of its first question decides the class of the records
/// and the cast: IN is answered to the sender alone, anything else to the
/// group. The response repeats the questions and holds the records of every
/// asked-for service in the sender's network; with none, nothing is sent.
pub open spec fn on_request(s: ServerView, r: RequestView, from: SocketAddr, alen: nat) -> Outcome {
    if r.queries.len() == 0 || r.id == s.txid_query {
        Outcome::Wait(poll_time(s))
    } else {
        let qclass = r.queries[0].qclass;
        let answers = at_most(answers_for_queries(r.queries, s.services, from.ip, qclass), alen);
        if answers.len() == 0 {
            Outcome::Wait(poll_time(s))
        } else {
            match first_local(s.local_ips, from.ip) {
                None => Outcome::Wait(poll_time(s)),
                Some(l) => Outcome::Send(
                    MessageView::Response(
                        ResponseView { id: r.id, flags: 0x8400, queries: r.queries, answers },
                    ),
                    if qclass == QClass::IN {
                        Cast::Uni { from: l.addr, target: from }
                    } else {
                        Cast::Multi { from: l.addr }
                    },
                ),
            }
        }
    }
}

/// Whether `x` is a remote instance of a locally declared type: some local
/// service has its type, and none has its instance name, address and port.
pub open spec fn is_remote_of(x: ServiceView, ss: Seq<ServiceView>) -> bool {
    &&& exists|i: int| 0 <= i < ss.len() && name_segments(x.service_type) == name_segments(ss[i].service_type)
    &&& !exists|i: int|
        0 <= i < ss.len() && name_segments(x.instance_name) == name_segments(ss[i].instance_name)
            && x.ip_address == ss[i].ip_address && x.port == ss[i].port
}

/// The first service of `xs` that is a remote instance of a type of `ss`.
pub open spec fn first_remote(xs: Seq<ServiceView>, ss: Seq<ServiceView>) -> Option<ServiceView>
    decreases xs.len(),
{
    if xs.len() == 0 {
        None
    } else {
        match first_remote(xs.drop_last(), ss) {
            Some(x) => Some(x),
            None => if is_remote_of(xs.last(), ss) {
                Some(xs.last())
            } else {
                None
            },
        }
    }
}

/// What a response message asks of the server: the first complete remote
/// service that its records describe, if any.
pub open spec fn on_response(s: ServerView, r: ResponseView, slen: nat) -> Outcome {
    match first_remote(assemble(r.answers, slen), s.services) {
        Some(x) => Outcome::Found(x),
        None => Outcome::Wait(poll_time(s)),
    }
}

/// What a datagram from `from` asks of the server; one that does not parse
/// is dropped.
pub open spec fn on_packet(
    s: ServerView,
    data: Seq<u8>,
    from: SocketAddr,
    qlen: nat,
    alen: nat,
    llen: nat,
    slen: nat,
) -> Outcome {
    match message_from(data, qlen, alen, llen) {
        Ok((MessageView::Request(r), _)) => on_request(s, r, from, alen),
        Ok((MessageView::Response(r), _)) => on_response(s, r, slen),
        Err(_) => Outcome::Wait(poll_time(s)),
    }
}

impl<const QLEN: usize, const ALEN: usize, const LLEN: usize, const SLEN: usize, const LK: usize> View for Server<QLEN, ALEN, LLEN, SLEN, LK> {
    type V = ServerView;

    closed spec fn view(&self) -> ServerView {
        ServerView {
            last_now: self.last_now.0,
            services: service_views(self.services@),
            local_ips: self.local_ips@,
            next_advertise: self.next_advertise.0,
            next_advertise_idx: self.next_advertise_idx as nat,
            next_query: self.next_query.0,
            next_query_idx: self.next_query_idx as nat,
            txid_query: self.txid_query,
            next_txid: self.next_txid,
        }
    }
}

/// Whether `out` and the bytes now in `buffer` carry out `o`: a message is
/// written to the front of the buffer, whole where it fits.
pub open spec fn delivers<const LLEN: usize>(o: Outcome, out: Output<LLEN>, before: Seq<u8>, after: Seq<u8>, lk: nat) -> bool {
    match o {
        Outcome::Send(msg, cast) => out matches Output::Packet(n, c) && c == cast && after.len() == before.len()
            && n <= before.len() && (enc_message(msg, lk).len() <= before.len() ==> n == enc_message(msg, lk).len()
            && after == enc_message(msg, lk) + before.subrange(n as int, before.len() as int))
            && (enc_message(msg, lk).len() > before.len() ==> n < enc_message(msg, lk).len())
            && after.subrange(0, n as int) == enc_message(msg, lk).subrange(0, n as int)
            && after.subrange(n as int, before.len() as int) == before.subrange(n as int, before.len() as int),
        Outcome::Wait(t) => out matches Output::Timeout(x) && x.0 == t && after == before,
        Outcome::Found(sv) => out matches Output::Remote(x) && x@ == sv && after == before,
    }
}

impl<const QLEN: usize, const ALEN: usize, const LLEN: usize, const SLEN: usize, const LK: usize> Server<QLEN, ALEN, LLEN, SLEN, LK> {
    /// Whether the server's state is one it can be in.
    pub closed spec fn wf(&self) -> bool {
        &&& server_wf(self@, SLEN as nat)
        &&& self.local_ips@.len() <= SLEN
    }

    /// A server for the first `SLEN` of `services`. The first advertise
    /// round is due at 3000 ms, the first query round at 5000 ms.
    pub fn new(services: Vec<ServiceInfo<LLEN>>) -> (r: Self)
        ensures
            r.wf(),
            server_wf(r@, SLEN as nat),
            r@.services == at_most(service_views(services@), SLEN as nat),
            r@.local_ips == local_ips_of(r@.services),
            r@.last_now == 0,
            r@.next_advertise == ADVERTISE_DELAY,
            r@.next_query == QUERY_DELAY,
            r@.next_advertise_idx == 0,
            r@.next_query_idx == 0,
            r@.txid_query == 0,
            r@.next_txid == 1,
    {
        let mut services = services;
        let ghost all = service_views(services@);
        if services.len() > SLEN {
            services.truncate(SLEN);
            assert(service_views(services@) =~= all.take(SLEN as int));
        }
        let mut local_ips: Vec<LocalIp> = Vec::new();
        let ghost sv = service_views(services@);
        let mut i: usize = 0;
        assert(sv.take(0) =~= Seq::<ServiceView>::empty());
        while i < services.len()
            invariant
                i <= services@.len(),
                sv == service_views(services@),
                local_ips@ == local_ips_of(sv.take(i as int)),
                local_ips@.len() <= i,
            decreases services.len() - i,
        {
            assert(sv.take(i + 1).drop_last() =~= sv.take(i as int));
            let loc = LocalIp { addr: services[i].ip_address, mask: services[i].netmask };
            let mut known = false;
            let mut k: usize = 0;
            while k < local_ips.len()
                invariant
                    k <= local_ips@.len(),
                    known == (exists|j: int| 0 <= j < k && local_ips@[j] == loc),
                decreases local_ips.len() - k,
            {
                if local_ips[k] == loc {
                    known = true;
                }
                k = k + 1;
            }
            if !known {
                local_ips.push(loc);
            }
            i = i + 1;
        }
        assert(sv.take(i as int) =~= sv);
        Server {
            last_now: Time::from_millis(0),
            services,
            local_ips,
            next_advertise: Time::from_millis(ADVERTISE_DELAY),
            next_advertise_idx: 0,
            next_query: Time::from_millis(QUERY_DELAY),
            next_query_idx: 0,
            txid_query: 0,
            next_txid: 1,
        }
    }

    /// The earlier of the next advertise and the next query deadline.
    pub fn poll_timeout(&self) -> (r: Time)
        ensures
            r.0 == poll_time(self@),
    {
        self.next_advertise.min(self.next_query)
    }
}

impl<const QLEN: usize, const ALEN: usize, const LLEN: usize, const SLEN: usize, const LK: usize> Server<QLEN, ALEN, LLEN, SLEN, LK> {
    fn write_message(msg: &Message<QLEN, ALEN, LLEN>, buffer: &mut [u8], cast: Cast) -> (r: Output<LLEN>)
        ensures
            delivers(Outcome::Send(msg@, cast), r, old(buffer)@, final(buffer)@, LK as nat),
    {
        let n = msg.serialize::<LK>(buffer);
        Output::Packet(n, cast)
    }

    fn do_advertise(&self, buffer: &mut [u8], l: LocalIp) -> (r: Output<LLEN>)
        ensures
            delivers(
                Outcome::Send(advertise_message(self@.services, l, ALEN as nat), Cast::Multi { from: l.addr }),
                r,
                old(buffer)@,
                final(buffer)@,
                LK as nat,
            ),
    {
        let ghost sv = self@.services;
        let mut answers: Vec<Answer<LLEN>> = Vec::new();
        let mut i: usize = 0;
        assert(sv.take(0) =~= Seq::<ServiceView>::empty());
        assert(answer_views(answers@) =~= Seq::<AnswerView>::empty());
        while i < self.services.len()
            invariant
                i <= self.services@.len(),
                sv == self@.services,
                sv == service_views(self.services@),
                answer_views(answers@) == all_answers(services_on(sv.take(i as int), l), QClass::Multicast),
            decreases self.services.len() - i,
        {
            assert(sv.take(i + 1).drop_last() =~= sv.take(i as int));
            let s = &self.services[i];
            if s.ip_address == l.addr && s.netmask == l.mask {
                let ghost on = services_on(sv.take(i as int), l);
                s.as_answers(QClass::Multicast, &mut answers);
                assert(services_on(sv.take(i + 1), l).drop_last() == on);
            } else {
            }
            i = i + 1;
        }
        assert(sv.take(i as int) =~= sv);
        if answers.len() > ALEN {
            let ghost full = answer_views(answers@);
            answers.truncate(ALEN);
            assert(answer_views(answers@) =~= full.take(ALEN as int));
        }
        let response: Response<QLEN, ALEN, LLEN> = Response {
            id: 0,
            flags: Flags::standard_response(),
            queries: Vec::new(),
            answers,
        };
        assert(query_views(response.queries@) =~= Seq::<QueryView>::empty());
        let msg = Message::Response(response);
        Self::write_message(&msg, buffer, Cast::Multi { from: l.addr })
    }

    fn do_query(&self, buffer: &mut [u8], l: LocalIp, id: u16) -> (r: Output<LLEN>)
        ensures
            delivers(
                Outcome::Send(query_message(self@.services, l, id, QLEN as nat), Cast::Multi { from: l.addr }),
                r,
                old(buffer)@,
                final(buffer)@,
                LK as nat,
            ),
    {
        let ghost sv = self@.services;
        let mut queries: Vec<Query<LLEN>> = Vec::new();
        let mut i: usize = 0;
        assert(sv.take(0) =~= Seq::<ServiceView>::empty());
        assert(query_views(queries@) =~= Seq::<QueryView>::empty());
        while i < self.services.len()
            invariant
                i <= self.services@.len(),
                sv == self@.services,
                sv == service_views(self.services@),
                query_views(queries@) == type_queries(services_on(sv.take(i as int), l)),
            decreases self.services.len() - i,
        {
            assert(sv.take(i + 1).drop_last() =~= sv.take(i as int));
            let s = &self.services[i];
            if s.ip_address == l.addr && s.netmask == l.mask {
                let q = Query { name: s.service_type.duplicate(), qtype: QType::PTR, qclass: QClass::IN };
                let ghost before = query_views(queries@);
                let ghost on = services_on(sv.take(i as int), l);
                queries.push(q);
                assert(query_views(queries@) =~= before.push(q@));
                assert(sv.take(i + 1).last() == sv[i as int]);
                assert(services_on(sv.take(i + 1), l) == on.push(sv[i as int]));
                assert(on.push(sv[i as int]).drop_last() =~= on);
            }
            i = i + 1;
        }
        assert(sv.take(i as int) =~= sv);
        if queries.len() > QLEN {
            let ghost full = query_views(queries@);
            queries.truncate(QLEN);
            assert(query_views(queries@) =~= full.take(QLEN as int));
        }
        let request: Request<QLEN, LLEN> = Request { id, flags: Flags::standard_request(), queries };
        let msg: Message<QLEN, ALEN, LLEN> = Message::Request(request);
        Self::write_message(&msg, buffer, Cast::Multi { from: l.addr })
    }

    fn handle_timeout(&mut self, now: Time, buffer: &mut [u8]) -> (r: Output<LLEN>)
        requires
            old(self).wf(),
        ensures
            final(self).wf(),
            final(self)@ == on_timeout(old(self)@, now.0, QLEN as nat, ALEN as nat).0,
            delivers(on_timeout(old(self)@, now.0, QLEN as nat, ALEN as nat).1, r, old(buffer)@, final(buffer)@, LK as nat),
    {
        self.last_now = now;
        if now.is_at_or_after(self.next_advertise) {
            if self.local_ips.len() == 0 {
                self.next_advertise = now.add_millis(ADVERTISE_INTERVAL);
                self.next_advertise_idx = 0;
                return Output::Timeout(self.poll_timeout());
            }
            let l = self.local_ips[self.next_advertise_idx];
            let ret = self.do_advertise(buffer, l);
            self.next_advertise_idx = self.next_advertise_idx + 1;
            if self.next_advertise_idx == self.local_ips.len() {
                self.next_advertise_idx = 0;
                self.next_advertise = now.add_millis(ADVERTISE_INTERVAL);
            }
            ret
        } else if now.is_at_or_after(self.next_query) {
            if self.local_ips.len() == 0 {
                self.next_query = now.add_millis(QUERY_INTERVAL);
                self.next_query_idx = 0;
                return Output::Timeout(self.poll_timeout());
            }
            let l = self.local_ips[self.next_query_idx];
            let id = self.next_txid();
            self.txid_query = id;
            let ret = self.do_query(buffer, l, id);
            self.next_query_idx = self.next_query_idx + 1;
            if self.next_query_idx == self.local_ips.len() {
                self.next_query_idx = 0;
                self.next_query = now.add_millis(QUERY_INTERVAL);
            }
            ret
        } else {
            Output::Timeout(self.poll_timeout())
        }
    }

    fn next_txid(&mut self) -> (r: u16)
        ensures
            r == old(self).next_txid,
            final(self).next_txid == next_id(old(self).next_txid),
            final(self).last_now == old(self).last_now,
            final(self).services == old(self).services,
            final(self).local_ips == old(self).local_ips,
            final(self).next_advertise == old(self).next_advertise,
            final(self).next_advertise_idx == old(self).next_advertise_idx,
            final(self).next_query == old(self).next_query,
            final(self).next_query_idx == old(self).next_query_idx,
            final(self).txid_query == old(self).txid_query,
    {
        let x = self.next_txid;
        self.next_txid = if x == 0xffff { 0 } else { x + 1 };
        x
    }
}

impl<const QLEN: usize, const ALEN: usize, const LLEN: usize, const SLEN: usize, const LK: usize> Server<QLEN, ALEN, LLEN, SLEN, LK> {
    fn find_local(&self, from: IpAddr) -> (r: Option<LocalIp>)
        ensures
            r == first_local(self@.local_ips, from),
    {
        let ghost ls = self@.local_ips;
        let mut i: usize = 0;
        while i < self.local_ips.len()
            invariant
                i <= self.local_ips@.len(),
                ls == self.local_ips@,
                first_local(ls.take(i as int), from) is None,
            decreases self.local_ips.len() - i,
        {
            assert(ls.take(i + 1).drop_last() =~= ls.take(i as int));
            let l = self.local_ips[i];
            if is_same_network(l.addr, l.mask, from) {
                proof {
                    lemma_first_local_prefix(ls, i + 1, from);
                }
                return Some(l);
            }
            i = i + 1;
        }
        assert(ls.take(i as int) =~= ls);
        None
    }

    fn handle_request(&self, request: Request<QLEN, LLEN>, from: SocketAddr, buffer: &mut [u8]) -> (r: Output<LLEN>)
        ensures
            delivers(on_request(self@, request@, from, ALEN as nat), r, old(buffer)@, final(buffer)@, LK as nat),
    {
        if request.queries.len() == 0 || request.id == self.txid_query {
            return Output::Timeout(self.poll_timeout());
        }
        let qclass = request.queries[0].qclass;
        let ghost qv = request@.queries;
        let ghost sv = self@.services;
        let mut answers: Vec<Answer<LLEN>> = Vec::new();
        let mut i: usize = 0;
        assert(qv.take(0) =~= Seq::<QueryView>::empty());
        assert(answer_views(answers@) =~= Seq::<AnswerView>::empty());
        while i < request.queries.len()
            invariant
                i <= request.queries@.len(),
                qv == query_views(request.queries@),
                sv == self@.services,
                sv == service_views(self.services@),
                answer_views(answers@) == answers_for_queries(qv.take(i as int), sv, from.ip, qclass),
            decreases request.queries.len() - i,
        {
            let q = &request.queries[i];
            let ghost base = answer_views(answers@);
            let mut j: usize = 0;
            assert(sv.take(0) =~= Seq::<ServiceView>::empty());
            assert(answer_views(answers@) =~= base + answers_for_query(qv[i as int], sv.take(0), from.ip, qclass));
            while j < self.services.len()
                invariant
                    j <= self.services@.len(),
                    i < qv.len(),
                    q@ == qv[i as int],
                    sv == service_views(self.services@),
                    answer_views(answers@) == base + answers_for_query(qv[i as int], sv.take(j as int), from.ip, qclass),
                decreases self.services.len() - j,
            {
                assert(sv.take(j + 1).drop_last() =~= sv.take(j as int));
                let s = &self.services[j];
                let ghost before = answer_views(answers@);
                if q.qtype == QType::PTR && q.name.same_as(&s.service_type) && is_same_network(
                    s.ip_address,
                    s.netmask,
                    from.ip,
                ) {
                    s.as_answers(qclass, &mut answers);
                    assert(answer_views(answers@) =~= base + answers_for_query(qv[i as int], sv.take(j + 1), from.ip, qclass));
                } else {
                    assert(answer_views(answers@) =~= base + answers_for_query(qv[i as int], sv.take(j + 1), from.ip, qclass));
                }
                j = j + 1;
            }
            assert(sv.take(j as int) =~= sv);
            assert(qv.take(i + 1).drop_last() =~= qv.take(i as int));
            i = i + 1;
        }
        assert(qv.take(i as int) =~= qv);
        if answers.len() > ALEN {
            let ghost full = answer_views(answers@);
            answers.truncate(ALEN);
            assert(answer_views(answers@) =~= full.take(ALEN as int));
        }
        if answers.len() == 0 {
            return Output::Timeout(self.poll_timeout());
        }
        let send_from = match self.find_local(from.ip) {
            Some(l) => l.addr,
            None => return Output::Timeout(self.poll_timeout()),
        };
        let cast = match qclass {
            QClass::IN => Cast::Uni { from: send_from, target: from },
            _ => Cast::Multi { from: send_from },
        };
        let response: Response<QLEN, ALEN, LLEN> = Response {
            id: request.id,
            flags: Flags::standard_response(),
            queries: request.queries,
            answers,
        };
        let msg = Message::Response(response);
        Self::write_message(&msg, buffer, cast)
    }

    fn is_remote(&self, x: &ServiceInfo<LLEN>) -> (r: bool)
        ensures
            r == is_remote_of(x@, self@.services),
    {
        let ghost sv = self@.services;
        let mut handled = false;
        let mut is_self = false;
        let mut i: usize = 0;
        while i < self.services.len()
            invariant
                i <= self.services@.len(),
                sv == service_views(self.services@),
                handled == (exists|k: int| 0 <= k < i && name_segments(x@.service_type) == name_segments(sv[k].service_type)),
                is_self == (exists|k: int| 0 <= k < i && name_segments(x@.instance_name) == name_segments(sv[k].instance_name)
                    && x@.ip_address == sv[k].ip_address && x@.port == sv[k].port),
            decreases self.services.len() - i,
        {
            let s = &self.services[i];
            assert(sv[i as int] == s@);
            let b1 = x.service_type.same_as(&s.service_type);
            let b2 = x.instance_name.same_as(&s.instance_name) && x.ip_address == s.ip_address && x.port == s.port;
            proof {
                assert((exists|k: int| 0 <= k < i + 1 && name_segments(x@.service_type) == name_segments(sv[k].service_type))
                    == ((exists|k: int| 0 <= k < i && name_segments(x@.service_type) == name_segments(sv[k].service_type)) || b1));
                assert((exists|k: int| 0 <= k < i + 1 && name_segments(x@.instance_name) == name_segments(sv[k].instance_name)
                    && x@.ip_address == sv[k].ip_address && x@.port == sv[k].port)
                    == ((exists|k: int| 0 <= k < i && name_segments(x@.instance_name) == name_segments(sv[k].instance_name)
                    && x@.ip_address == sv[k].ip_address && x@.port == sv[k].port) || b2));
            }
            handled = handled || b1;
            is_self = is_self || b2;
            i = i + 1;
        }
        handled && !is_self
    }

    fn handle_response(&self, response: Response<QLEN, ALEN, LLEN>) -> (r: Output<LLEN>)
        ensures
            delivers(on_response(self@, response@, SLEN as nat), r, seq![], seq![], LK as nat),
    {
        let mut found = ServiceInfo::from_answers::<SLEN>(&response.answers);
        let ghost xs = service_views(found@);
        let mut i: usize = 0;
        while i < found.len()
            invariant
                i <= found@.len(),
                xs == service_views(found@),
                xs == assemble(response@.answers, SLEN as nat),
                first_remote(xs.take(i as int), self@.services) is None,
            decreases found.len() - i,
        {
            assert(xs.take(i + 1).drop_last() =~= xs.take(i as int));
            if self.is_remote(&found[i]) {
                proof {
                    lemma_first_remote_prefix(xs, i + 1, self@.services);
                }
                let x = found.remove(i);
                return Output::Remote(x);
            }
            i = i + 1;
        }
        assert(xs.take(i as int) =~= xs);
        Output::Timeout(self.poll_timeout())
    }

    fn handle_packet(&self, data: &[u8], from: SocketAddr, buffer: &mut [u8]) -> (r: Output<LLEN>)
        ensures
            delivers(
                on_packet(self@, data@, from, QLEN as nat, ALEN as nat, LLEN as nat, SLEN as nat),
                r,
                old(buffer)@,
                final(buffer)@,
                LK as nat,
            ),
    {
        match Message::<QLEN, ALEN, LLEN>::parse(data) {
            Ok((Message::Request(request), _)) => self.handle_request(request, from, buffer),
            Ok((Message::Response(response), _)) => {
                let out = self.handle_response(response);
                out
            },
            Err(_) => Output::Timeout(self.poll_timeout()),
        }
    }

    /// Handles one input. A timeout moves the clock to its time and may send
    /// a due announcement or query; a packet is answered, reported or dropped
    /// and leaves the state as it was.
    pub fn handle(&mut self, input: Input, buffer: &mut [u8]) -> (r: Output<LLEN>)
        requires
            old(self).wf(),
        ensures
            final(self).wf(),
            server_wf(final(self)@, SLEN as nat),
            final(self)@.services == old(self)@.services,
            final(self)@.local_ips == old(self)@.local_ips,
            match input {
                Input::Timeout(now) => final(self)@ == on_timeout(old(self)@, now.0, QLEN as nat, ALEN as nat).0
                    && delivers(on_timeout(old(self)@, now.0, QLEN as nat, ALEN as nat).1, r, old(buffer)@, final(buffer)@, LK as nat),
                Input::Packet(data, from) => final(self)@ == old(self)@ && delivers(
                    on_packet(old(self)@, data@, from, QLEN as nat, ALEN as nat, LLEN as nat, SLEN as nat),
                    r,
                    old(buffer)@,
                    final(buffer)@,
                    LK as nat,
                ),
            },
    {
        match input {
            Input::Timeout(now) => self.handle_timeout(now, buffer),
            Input::Packet(data, from) => self.handle_packet(data, from, buffer),
        }
    }
}

/// What the search finds in a prefix it finds in the whole.
proof fn lemma_first_local_prefix(ls: Seq<LocalIp>, k: int, from: IpAddr)
    requires
        0 <= k <= ls.len(),
        first_local(ls.take(k), from) is Some,
    ensures
        first_local(ls, from) == first_local(ls.take(k), from),
    decreases ls.len() - k,
{
    if k < ls.len() {
        assert(ls.take(k + 1).drop_last() =~= ls.take(k));
        lemma_first_local_prefix(ls, k + 1, from);
    } else {
        assert(ls.take(k) =~= ls);
    }
}

/// What the search finds in a prefix it finds in the whole.
proof fn lemma_first_remote_prefix(xs: Seq<ServiceView>, k: int, ss: Seq<ServiceView>)
    requires
        0 <= k <= xs.len(),
        first_remote(xs.take(k), ss) is Some,
    ensures
        first_remote(xs, ss) == first_remote(xs.take(k), ss),
    decreases xs.len() - k,
{
    if k < xs.len() {
        assert(xs.take(k + 1).drop_last() =~= xs.take(k));
        lemma_first_remote_prefix(xs, k + 1, ss);
    } else {
        assert(xs.take(k) =~= xs);
    }
}

/// A timeout never brings the next deadline forward: the deadline the
/// server reports after a timeout is at or after the one it reported before.
pub proof fn lemma_poll_monotone(s: ServerView, now: u64, qlen: nat, alen: nat)
    ensures
        poll_time(on_timeout(s, now, qlen, alen).0) >= poll_time(s),
{
}

/// A query that carries the id of the server's own last query gets no answer.
pub proof fn lemma_self_echo_ignored(s: ServerView, r: RequestView, from: SocketAddr, alen: nat)
    requires
        r.id == s.txid_query,
    ensures
        on_request(s, r, from, alen) is Wait,
{
}

/// The response to a query repeats its questions unchanged.
pub proof fn lemma_response_repeats_queries(s: ServerView, r: RequestView, from: SocketAddr, alen: nat)
    ensures
        on_request(s, r, from, alen) matches Outcome::Send(MessageView::Response(resp), _) ==> resp.queries
            == r.queries && resp.id == r.id,
        on_request(s, r, from, alen) matches Outcome::Send(m, _) ==> m is Response,
{
}

} // verus!
