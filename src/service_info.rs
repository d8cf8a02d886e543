use vstd::prelude::*;
use vstd::string::StringSliceAdditionalSpecFns;

use crate::label::{name_segments, Label, PartView, DOT};
use crate::net::IpAddr;
use crate::query::{Answer, AnswerView, QClass, QType};
use crate::records::{Record, RecordView, A, AAAA, PTR, SRV, TXT};

verus! {

/// A service instance: its type, its instance name, the host it runs on,
/// the host's address and netmask, and its port.
#[derive(Debug)]
pub struct ServiceInfo<const LLEN: usize> {
    pub service_type: Label<LLEN>,
    pub instance_name: Label<LLEN>,
    pub hostname: Label<LLEN>,
    pub ip_address: IpAddr,
    pub netmask: IpAddr,
    pub port: u16,
}

/// A service instance, as a value.
pub struct ServiceView {
    pub service_type: Seq<PartView>,
    pub instance_name: Seq<PartView>,
    pub hostname: Seq<PartView>,
    pub ip_address: IpAddr,
    pub netmask: IpAddr,
    pub port: u16,
}

impl<const LLEN: usize> View for ServiceInfo<LLEN> {
    type V = ServiceView;

    open spec fn view(&self) -> ServiceView {
        ServiceView {
            service_type: self.service_type@,
            instance_name: self.instance_name@,
            hostname: self.hostname@,
            ip_address: self.ip_address,
            netmask: self.netmask,
            port: self.port,
        }
    }
}

/// The address 0.0.0.0, which stands for no address.
pub open spec fn unspecified() -> IpAddr {
    IpAddr::V4(0)
}

/// The mask of all ones in the family of `ip`.
pub open spec fn full_mask(ip: IpAddr) -> IpAddr {
    match ip {
        IpAddr::V4(_) => IpAddr::V4(0xffff_ffff),
        IpAddr::V6(_) => IpAddr::V6(0xffff_ffff_ffff_ffff_ffff_ffff_ffff_ffff),
    }
}

/// The values of the services in `v`.
pub open spec fn service_views<const LLEN: usize>(v: Seq<ServiceInfo<LLEN>>) -> Seq<ServiceView> {
    v.map_values(|s: ServiceInfo<LLEN>| s@)
}

/// The four records that announce a service: PTR from the type to the
/// instance, SRV and TXT on the instance, and the address of the host. The
/// PTR record has class IN, and so has an AAAA record; the others `aclass`.
pub open spec fn service_answers(s: ServiceView, aclass: QClass) -> Seq<AnswerView> {
    seq![
        AnswerView {
            name: s.service_type,
            atype: QType::PTR,
            aclass: QClass::IN,
            ttl: 4500,
            record: RecordView::PTR(s.instance_name),
        },
        AnswerView {
            name: s.instance_name,
            atype: QType::SRV,
            aclass,
            ttl: 120,
            record: RecordView::SRV { priority: 0, weight: 0, port: s.port, target: s.hostname },
        },
        AnswerView {
            name: s.instance_name,
            atype: QType::TXT,
            aclass,
            ttl: 120,
            record: RecordView::TXT(seq![0u8]),
        },
        match s.ip_address {
            IpAddr::V4(a) => AnswerView {
                name: s.hostname,
                atype: QType::A,
                aclass,
                ttl: 120,
                record: RecordView::A(a),
            },
            IpAddr::V6(a) => AnswerView {
                name: s.hostname,
                atype: QType::AAAA,
                aclass: QClass::IN,
                ttl: 120,
                record: RecordView::AAAA(a),
            },
        },
    ]
}

/// A service known only by a PTR record: type and instance, nothing else.
pub open spec fn stub(service_type: Seq<PartView>, instance_name: Seq<PartView>) -> ServiceView {
    ServiceView {
        service_type,
        instance_name,
        hostname: Seq::empty(),
        ip_address: unspecified(),
        netmask: unspecified(),
        port: 0,
    }
}

/// One stub for each PTR record of `xs`, in order, at most `slen`.
pub open spec fn ptr_stubs(xs: Seq<AnswerView>, slen: nat) -> Seq<ServiceView>
    decreases xs.len(),
{
    if xs.len() == 0 {
        Seq::empty()
    } else {
        let s = ptr_stubs(xs.drop_last(), slen);
        match xs.last().record {
            RecordView::PTR(name) => if s.len() < slen {
                s.push(stub(xs.last().name, name))
            } else {
                s
            },
            _ => s,
        }
    }
}

/// `s` after the SRV records of `xs` that name its instance: each gives it
/// its host and port, the last one last.
pub open spec fn with_srv(s: ServiceView, xs: Seq<AnswerView>) -> ServiceView
    decreases xs.len(),
{
    if xs.len() == 0 {
        s
    } else {
        let s1 = with_srv(s, xs.drop_last());
        match xs.last().record {
            RecordView::SRV { port, target, .. } => if name_segments(s1.instance_name) == name_segments(
                xs.last().name,
            ) {
                ServiceView { hostname: target, port, ..s1 }
            } else {
                s1
            },
            _ => s1,
        }
    }
}

/// `s` after the address records of `xs` that name its host: each gives it
/// its address and a full netmask, the last one last.
pub open spec fn with_addr(s: ServiceView, xs: Seq<AnswerView>) -> ServiceView
    decreases xs.len(),
{
    if xs.len() == 0 {
        s
    } else {
        let s1 = with_addr(s, xs.drop_last());
        if name_segments(s1.hostname) == name_segments(xs.last().name) {
            match xs.last().record {
                RecordView::A(a) => ServiceView {
                    ip_address: IpAddr::V4(a),
                    netmask: full_mask(IpAddr::V4(a)),
                    ..s1
                },
                RecordView::AAAA(a) => ServiceView {
                    ip_address: IpAddr::V6(a),
                    netmask: full_mask(IpAddr::V6(a)),
                    ..s1
                },
                _ => s1,
            }
        } else {
            s1
        }
    }
}

/// Whether every part of a discovered service is known.
pub open spec fn is_complete(s: ServiceView) -> bool {
    &&& name_segments(s.service_type).len() > 0
    &&& name_segments(s.instance_name).len() > 0
    &&& name_segments(s.hostname).len() > 0
    &&& s.ip_address != unspecified()
    &&& s.port != 0
}

/// The services that the records `xs` describe completely: one for each
/// PTR record, at most `slen`, with host and port from SRV records and
/// address from A and AAAA records.
pub open spec fn assemble(xs: Seq<AnswerView>, slen: nat) -> Seq<ServiceView> {
    ptr_stubs(xs, slen).map_values(|s: ServiceView| with_addr(with_srv(s, xs), xs)).filter(
        |s: ServiceView| is_complete(s),
    )
}

impl<const LLEN: usize> ServiceInfo<LLEN> {
    /// A service of type `service_type` (`_svc._proto.local`) named
    /// `instance_name`, on `hostname` at `ip_address` and `port`. Its full
    /// instance name is the instance in front of the type; names must not
    /// end in a dot.
    pub fn new(
        service_type: &str,
        instance_name: &str,
        hostname: &str,
        ip_address: IpAddr,
        netmask: IpAddr,
        port: u16,
    ) -> (r: Self)
        requires
            !(service_type.spec_bytes().len() > 0 && service_type.spec_bytes().last() == DOT),
            !(hostname.spec_bytes().len() > 0 && hostname.spec_bytes().last() == DOT),
        ensures
            LLEN >= 1 ==> r@.service_type == seq![PartView::Str(service_type.spec_bytes())],
            LLEN >= 2 ==> r@.instance_name == seq![
                PartView::Str(instance_name.spec_bytes()),
                PartView::Str(service_type.spec_bytes()),
            ],
            LLEN >= 1 ==> r@.hostname == seq![PartView::Str(hostname.spec_bytes())],
            LLEN == 1 ==> r@.instance_name == r@.service_type,
            LLEN == 0 ==> r@.service_type.len() == 0 && r@.instance_name.len() == 0
                && r@.hostname.len() == 0,
            r.ip_address == ip_address,
            r.netmask == netmask,
            r.port == port,
    {
        let st: Label<LLEN> = Label::new(service_type);
        let mut inst = st.duplicate();
        inst.push_front(instance_name);
        if LLEN >= 2 {
            assert(inst@ =~= seq![
                PartView::Str(instance_name.spec_bytes()),
                PartView::Str(service_type.spec_bytes()),
            ]);
        }
        ServiceInfo {
            service_type: st,
            instance_name: inst,
            hostname: Label::new(hostname),
            ip_address,
            netmask,
            port,
        }
    }

    /// The type of service, such as `_my-service._udp.local`.
    pub fn service_type(&self) -> (r: &Label<LLEN>)
        ensures
            r@ == self.service_type@,
    {
        &self.service_type
    }

    /// The full instance name.
    pub fn instance_name(&self) -> (r: &Label<LLEN>)
        ensures
            r@ == self.instance_name@,
    {
        &self.instance_name
    }

    /// The host the service runs on.
    pub fn hostname(&self) -> (r: &Label<LLEN>)
        ensures
            r@ == self.hostname@,
    {
        &self.hostname
    }

    /// The address of the host.
    pub fn ip_address(&self) -> (r: IpAddr)
        ensures
            r == self.ip_address,
    {
        self.ip_address
    }

    /// The netmask of the address; all ones when it is not known.
    pub fn netmask(&self) -> (r: IpAddr)
        ensures
            r == self.netmask,
    {
        self.netmask
    }

    /// The port of the service.
    pub fn port(&self) -> (r: u16)
        ensures
            r == self.port,
    {
        self.port
    }

    /// A copy of this service.
    pub fn duplicate(&self) -> (r: Self)
        ensures
            r@ == self@,
    {
        ServiceInfo {
            service_type: self.service_type.duplicate(),
            instance_name: self.instance_name.duplicate(),
            hostname: self.hostname.duplicate(),
            ip_address: self.ip_address,
            netmask: self.netmask,
            port: self.port,
        }
    }

    /// Appends the four records that announce this service to `out`.
    pub fn as_answers(&self, aclass: QClass, out: &mut Vec<Answer<LLEN>>)
        ensures
            crate::reqres::answer_views(final(out)@) == crate::reqres::answer_views(old(out)@)
                + service_answers(self@, aclass),
    {
        let ghost before = crate::reqres::answer_views(out@);
        let ptr = Answer {
            name: self.service_type.duplicate(),
            atype: QType::PTR,
            aclass: QClass::IN,
            ttl: 4500,
            record: Record::PTR(PTR { name: self.instance_name.duplicate() }),
        };
        let srv = Answer {
            name: self.instance_name.duplicate(),
            atype: QType::SRV,
            aclass,
            ttl: 120,
            record: Record::SRV(SRV { priority: 0, weight: 0, port: self.port, target: self.hostname.duplicate() }),
        };
        let mut text: Vec<u8> = Vec::new();
        text.push(0u8);
        let txt = Answer {
            name: self.instance_name.duplicate(),
            atype: QType::TXT,
            aclass,
            ttl: 120,
            record: Record::TXT(TXT { text }),
        };
        let ip = match self.ip_address {
            IpAddr::V4(address) => Answer {
                name: self.hostname.duplicate(),
                atype: QType::A,
                aclass,
                ttl: 120,
                record: Record::A(A { address }),
            },
            IpAddr::V6(address) => Answer {
                name: self.hostname.duplicate(),
                atype: QType::AAAA,
                aclass: QClass::IN,
                ttl: 120,
                record: Record::AAAA(AAAA { address }),
            },
        };
        assert(txt@.record == RecordView::TXT(seq![0u8]));
        out.push(ptr);
        out.push(srv);
        out.push(txt);
        out.push(ip);
        assert(crate::reqres::answer_views(out@) =~= before + service_answers(self@, aclass));
    }
}

impl<const LLEN: usize> ServiceInfo<LLEN> {
    fn stub_of(service_type: &Label<LLEN>, instance_name: &Label<LLEN>) -> (r: Self)
        ensures
            r@ == stub(service_type@, instance_name@),
    {
        ServiceInfo {
            service_type: service_type.duplicate(),
            instance_name: instance_name.duplicate(),
            hostname: Label::empty(),
            ip_address: IpAddr::V4(0),
            netmask: IpAddr::V4(0),
            port: 0,
        }
    }

    fn apply_srv(&self, answers: &Vec<Answer<LLEN>>) -> (r: Self)
        ensures
            r@ == with_srv(self@, crate::reqres::answer_views(answers@)),
    {
        let ghost xs = crate::reqres::answer_views(answers@);
        let mut cur = self.duplicate();
        let mut i: usize = 0;
        assert(xs.take(0) =~= Seq::<AnswerView>::empty());
        while i < answers.len()
            invariant
                i <= answers@.len(),
                xs == crate::reqres::answer_views(answers@),
                cur@ == with_srv(self@, xs.take(i as int)),
            decreases answers.len() - i,
        {
            assert(xs.take(i + 1).drop_last() =~= xs.take(i as int));
            if let Record::SRV(srv) = &answers[i].record {
                if cur.instance_name.same_as(&answers[i].name) {
                    cur.hostname = srv.target.duplicate();
                    cur.port = srv.port;
                }
            }
            i = i + 1;
        }
        assert(xs.take(i as int) =~= xs);
        cur
    }

    fn apply_addr(&self, answers: &Vec<Answer<LLEN>>) -> (r: Self)
        ensures
            r@ == with_addr(self@, crate::reqres::answer_views(answers@)),
    {
        let ghost xs = crate::reqres::answer_views(answers@);
        let mut cur = self.duplicate();
        let mut i: usize = 0;
        assert(xs.take(0) =~= Seq::<AnswerView>::empty());
        while i < answers.len()
            invariant
                i <= answers@.len(),
                xs == crate::reqres::answer_views(answers@),
                cur@ == with_addr(self@, xs.take(i as int)),
            decreases answers.len() - i,
        {
            assert(xs.take(i + 1).drop_last() =~= xs.take(i as int));
            if cur.hostname.same_as(&answers[i].name) {
                match &answers[i].record {
                    Record::A(a) => {
                        cur.ip_address = IpAddr::V4(a.address);
                        cur.netmask = IpAddr::V4(0xffff_ffff);
                    },
                    Record::AAAA(a) => {
                        cur.ip_address = IpAddr::V6(a.address);
                        cur.netmask = IpAddr::V6(0xffff_ffff_ffff_ffff_ffff_ffff_ffff_ffff);
                    },
                    _ => {},
                }
            }
            i = i + 1;
        }
        assert(xs.take(i as int) =~= xs);
        cur
    }

    fn complete(&self) -> (r: bool)
        ensures
            r == is_complete(self@),
    {
        !self.service_type.is_empty() && !self.instance_name.is_empty() && !self.hostname.is_empty()
            && self.ip_address != IpAddr::V4(0) && self.port != 0
    }

    /// The services that `answers` describe completely, at most `SLEN`: one
    /// for each PTR record, with host and port from the SRV records of its
    /// instance and the address from the A or AAAA records of that host.
    pub fn from_answers<const SLEN: usize>(answers: &Vec<Answer<LLEN>>) -> (r: Vec<Self>)
        ensures
            service_views(r@) == assemble(crate::reqres::answer_views(answers@), SLEN as nat),
    {
        let ghost xs = crate::reqres::answer_views(answers@);
        let mut stubs: Vec<Self> = Vec::new();
        let mut i: usize = 0;
        assert(xs.take(0) =~= Seq::<AnswerView>::empty());
        assert(service_views(stubs@) =~= Seq::<ServiceView>::empty());
        while i < answers.len()
            invariant
                i <= answers@.len(),
                xs == crate::reqres::answer_views(answers@),
                service_views(stubs@) == ptr_stubs(xs.take(i as int), SLEN as nat),
            decreases answers.len() - i,
        {
            assert(xs.take(i + 1).drop_last() =~= xs.take(i as int));
            if let Record::PTR(ptr) = &answers[i].record {
                if stubs.len() < SLEN {
                    let st = Self::stub_of(&answers[i].name, &ptr.name);
                    let ghost before = service_views(stubs@);
                    stubs.push(st);
                    assert(service_views(stubs@) =~= before.push(st@));
                }
            }
            i = i + 1;
        }
        assert(xs.take(i as int) =~= xs);
        let ghost sv = service_views(stubs@);
        let ghost f = |s: ServiceView| with_addr(with_srv(s, xs), xs);
        let ghost pred = |s: ServiceView| is_complete(s);
        let mut out: Vec<Self> = Vec::new();
        let mut j: usize = 0;
        proof {
            reveal(Seq::filter);
            assert(sv.take(0).map_values(f) =~= Seq::<ServiceView>::empty());
            assert(service_views(out@) =~= sv.take(0).map_values(f).filter(pred));
        }
        while j < stubs.len()
            invariant
                j <= stubs@.len(),
                sv == service_views(stubs@),
                xs == crate::reqres::answer_views(answers@),
                f == (|s: ServiceView| with_addr(with_srv(s, xs), xs)),
                pred == (|s: ServiceView| is_complete(s)),
                service_views(out@) == sv.take(j as int).map_values(f).filter(pred),
            decreases stubs.len() - j,
        {
            let t = stubs[j].apply_srv(answers).apply_addr(answers);
            proof {
                reveal(Seq::filter);
                assert(sv.take(j + 1).map_values(f).drop_last() =~= sv.take(j as int).map_values(f));
                assert(sv.take(j + 1).map_values(f).last() == t@);
            }
            if t.complete() {
                let ghost before = service_views(out@);
                out.push(t);
                assert(service_views(out@) =~= before.push(t@));
            }
            j = j + 1;
        }
        assert(sv.take(j as int) =~= sv);
        out
    }
}

} // verus!
