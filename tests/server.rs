use opslag::{
    Cast, Flags, Input, IpAddr, Label, Message, Opcode, Output, QClass, QType, Query, Record,
    Request, Response, Server, ServiceInfo, SocketAddr, Time,
};

fn service(ip: IpAddr, port: u16) -> ServiceInfo<4> {
    ServiceInfo::new("_test._udp.local", "inst", "host.local", ip, IpAddr::v4(255, 255, 255, 0), port)
}

fn two_homed() -> Server<4, 8, 4, 2, 10> {
    Server::new(vec![
        service(IpAddr::v4(10, 0, 0, 1), 1234),
        service(IpAddr::v4(10, 0, 1, 1), 5678),
    ])
}

fn query_packet(id: u16, qclass: QClass) -> Vec<u8> {
    let mut request = Request::<4, 4> { id, flags: Flags::standard_request(), queries: Vec::new() };
    request.queries.push(Query { name: Label::new("_test._udp.local"), qtype: QType::PTR, qclass });
    let message: Message<4, 4, 4> = Message::Request(request);
    let mut out = [0u8; 512];
    let n = message.serialize::<10>(&mut out);
    out[..n].to_vec()
}

#[test]
fn multihome_fan_out() {
    let mut server = two_homed();
    let mut buf = [0u8; 2048];
    match server.handle(Input::Timeout(Time::from_millis(3000)), &mut buf) {
        Output::Packet(n, cast) => {
            assert!(n > 0);
            assert_eq!(cast, Cast::Multi { from: IpAddr::v4(10, 0, 0, 1) });
        }
        _ => panic!("Expected a packet"),
    }
    match server.handle(Input::Timeout(Time::from_millis(3000)), &mut buf) {
        Output::Packet(_, cast) => assert_eq!(cast, Cast::Multi { from: IpAddr::v4(10, 0, 1, 1) }),
        _ => panic!("Expected a packet"),
    }
    // The advertise round is over; the query round is next, at 5000.
    match server.handle(Input::Timeout(Time::from_millis(3001)), &mut buf) {
        Output::Timeout(t) => assert_eq!(t, Time::from_millis(5000)),
        _ => panic!("Expected a timeout"),
    }
    // Two query packets, one per interface.
    assert!(matches!(server.handle(Input::Timeout(Time::from_millis(5000)), &mut buf), Output::Packet(..)));
    assert!(matches!(server.handle(Input::Timeout(Time::from_millis(5000)), &mut buf), Output::Packet(..)));
    // Then the next deadline is the advertise one at 3000 + 15000.
    match server.handle(Input::Timeout(Time::from_millis(5001)), &mut buf) {
        Output::Timeout(t) => assert_eq!(t, Time::from_millis(18000)),
        _ => panic!("Expected a timeout"),
    }
    assert_eq!(server.poll_timeout(), Time::from_millis(18000));

    // A query from 10.0.1.42 is answered with the second service only.
    let packet = query_packet(0x4242, QClass::IN);
    let from = SocketAddr { ip: IpAddr::v4(10, 0, 1, 42), port: 5353 };
    let n = match server.handle(Input::Packet(&packet, from), &mut buf) {
        Output::Packet(n, cast) => {
            assert_eq!(cast, Cast::Uni { from: IpAddr::v4(10, 0, 1, 1), target: from });
            n
        }
        _ => panic!("Expected a packet"),
    };
    let (response, _) = Response::<4, 8, 4>::parse(&buf[..n]).unwrap();
    assert_eq!(response.id, 0x4242);
    assert_eq!(response.answers.len(), 4);
    let ports: Vec<u16> = response
        .answers
        .iter()
        .filter_map(|a| match &a.record {
            Record::SRV(s) => Some(s.port),
            _ => None,
        })
        .collect();
    assert_eq!(ports, vec![5678]);
    match &response.answers[3].record {
        Record::A(a) => assert_eq!(IpAddr::V4(a.address), IpAddr::v4(10, 0, 1, 1)),
        _ => panic!("Expected A record"),
    }
}

#[test]
fn response_repeats_the_questions() {
    let mut server = two_homed();
    let mut buf = [0u8; 2048];
    let packet = query_packet(7, QClass::Multicast);
    let from = SocketAddr { ip: IpAddr::v4(10, 0, 0, 9), port: 5353 };
    let n = match server.handle(Input::Packet(&packet, from), &mut buf) {
        Output::Packet(n, cast) => {
            assert_eq!(cast, Cast::Multi { from: IpAddr::v4(10, 0, 0, 1) });
            n
        }
        _ => panic!("Expected a packet"),
    };
    let (request, _) = Request::<4, 4>::parse(&packet).unwrap();
    let (response, _) = Response::<4, 8, 4>::parse(&buf[..n]).unwrap();
    assert_eq!(response.queries, request.queries);
    assert_eq!(response.flags, Flags::standard_response());
    assert_eq!(response.answers[1].aclass, QClass::Multicast);
    assert_eq!(response.answers[0].aclass, QClass::IN);
}

#[test]
fn own_query_echo_is_ignored() {
    let mut server = two_homed();
    let mut buf = [0u8; 2048];
    let _ = server.handle(Input::Timeout(Time::from_millis(3000)), &mut buf);
    let _ = server.handle(Input::Timeout(Time::from_millis(3000)), &mut buf);
    // The first query goes out with id 1.
    let n = match server.handle(Input::Timeout(Time::from_millis(5000)), &mut buf) {
        Output::Packet(n, _) => n,
        _ => panic!("Expected a packet"),
    };
    let echo = buf[..n].to_vec();
    assert_eq!(&echo[..2], &[0, 1]);
    let from = SocketAddr { ip: IpAddr::v4(10, 0, 0, 1), port: 5353 };
    match server.handle(Input::Packet(&echo, from), &mut buf) {
        Output::Timeout(_) => {}
        _ => panic!("Expected no answer to our own query"),
    }
    // The same question with another id is answered.
    let other = query_packet(2, QClass::IN);
    assert!(matches!(server.handle(Input::Packet(&other, from), &mut buf), Output::Packet(..)));
}

#[test]
fn query_from_another_network_is_not_answered() {
    let mut server = two_homed();
    let mut buf = [0u8; 2048];
    let packet = query_packet(9, QClass::IN);
    let from = SocketAddr { ip: IpAddr::v4(192, 168, 5, 5), port: 5353 };
    assert!(matches!(server.handle(Input::Packet(&packet, from), &mut buf), Output::Timeout(_)));
}

#[test]
fn garbage_is_dropped() {
    let mut server = two_homed();
    let mut buf = [0u8; 64];
    let from = SocketAddr { ip: IpAddr::v4(10, 0, 0, 2), port: 5353 };
    match server.handle(Input::Packet(&[1, 2, 3], from), &mut buf) {
        Output::Timeout(t) => assert_eq!(t, Time::from_millis(3000)),
        _ => panic!("Expected a timeout"),
    }
}

#[test]
fn poll_timeout_never_moves_back() {
    let mut server = two_homed();
    let mut buf = [0u8; 2048];
    let mut last = server.poll_timeout();
    for t in [0u64, 2999, 3000, 3000, 3001, 5000, 5000, 9000, 18000, 18000, 24000, 24000, 40000] {
        let _ = server.handle(Input::Timeout(Time::from_millis(t)), &mut buf);
        let now = server.poll_timeout();
        assert!(now.0 >= last.0);
        last = now;
    }
}

#[test]
fn remote_service_is_reported() {
    let mut server = two_homed();
    let mut buf = [0u8; 2048];
    let remote: Server<4, 8, 4, 1, 10> =
        Server::new(vec![service(IpAddr::v4(10, 0, 0, 77), 4321)]);
    let mut remote = remote;
    let n = match remote.handle(Input::Timeout(Time::from_millis(3000)), &mut buf) {
        Output::Packet(n, _) => n,
        _ => panic!("Expected an announcement"),
    };
    let announcement = buf[..n].to_vec();
    let from = SocketAddr { ip: IpAddr::v4(10, 0, 0, 77), port: 5353 };
    match server.handle(Input::Packet(&announcement, from), &mut buf) {
        Output::Remote(s) => {
            assert_eq!(s.port(), 4321);
            assert_eq!(s.ip_address(), IpAddr::v4(10, 0, 0, 77));
            assert_eq!(s.netmask(), IpAddr::v4(255, 255, 255, 255));
            assert!(s.service_type().eq_str("_test._udp.local"));
            assert!(s.instance_name().eq_str("inst._test._udp.local"));
            assert!(s.hostname().eq_str("host.local"));
        }
        _ => panic!("Expected a remote service"),
    }
    // Our own announcement is not a remote service.
    let mut own = two_homed();
    let n = match own.handle(Input::Timeout(Time::from_millis(3000)), &mut buf) {
        Output::Packet(n, _) => n,
        _ => panic!("Expected an announcement"),
    };
    let mine = buf[..n].to_vec();
    assert!(matches!(server.handle(Input::Packet(&mine, from), &mut buf), Output::Timeout(_)));
}

#[test]
fn empty_server_only_waits() {
    let mut server: Server<4, 4, 4, 1, 10> = Server::new(Vec::new());
    let mut buf = [0u8; 256];
    match server.handle(Input::Timeout(Time::from_millis(3000)), &mut buf) {
        Output::Timeout(t) => assert_eq!(t, Time::from_millis(5000)),
        _ => panic!("Expected a timeout"),
    }
}

#[test]
fn standard_flags() {
    let q = Flags::standard_request();
    assert_eq!(q.0, 0x0100);
    assert!(q.is_query());
    assert!(q.is_recursion_desired());
    assert_eq!(q.get_opcode(), Opcode::Query);
    let r = Flags::standard_response();
    assert_eq!(r.0, 0x8400);
    assert!(!r.is_query());
    assert!(r.is_authoritative());
    assert!(!r.is_recursion_available());
}

#[test]
fn flag_setters() {
    let mut f = Flags(0);
    f.set_opcode(Opcode::Update);
    assert_eq!(f.0, 0x2800);
    assert_eq!(f.get_opcode(), Opcode::Update);
    f.set_truncated(true);
    assert!(f.is_truncated());
    f.set_rcode(0x1f);
    assert_eq!(f.get_rcode(), 0x0f);
    f.set_reserved(0x05);
    assert_eq!(f.get_reserved(), 0x05);
    f.set_recursion_available(true);
    assert_eq!(f.0, 0x2800 | 0x0200 | 0x0080 | 0x0050 | 0x000f);
    f.set_truncated(false);
    assert!(!f.is_truncated());
    assert_eq!(Opcode::from(3u8), Opcode::Reserved);
    assert_eq!(Opcode::from(9u8), Opcode::Reserved);
    assert_eq!(u8::from(Opcode::Notify), 4);
}

#[test]
fn qtype_and_qclass_values() {
    assert_eq!(QType::from_u16(28), QType::AAAA);
    assert_eq!(QType::from_u16(99), QType::Unknown(99));
    assert_eq!(QType::SRV.to_u16(), 33);
    assert_eq!(QType::Any.to_u16(), 255);
    for v in [1u16, 12, 16, 28, 33, 255, 0, 7, 65535] {
        assert_eq!(QType::from_u16(v).to_u16(), v);
        assert_eq!(QClass::from_u16(v).to_u16(), v);
    }
    assert_eq!(QClass::from_u16(0x8001), QClass::Multicast);
    assert_eq!(QClass::IN.to_u16(), 1);
}

#[test]
fn time_distances() {
    let a = Time::from_millis(1000);
    assert_eq!(a.millis_until(Time::from_millis(1500)), 500);
    assert_eq!(a.millis_until(Time::from_millis(500)), 0);
    assert_eq!(Time::from_millis(u64::MAX).add_millis(5), Time::from_millis(u64::MAX));
    assert_eq!(a.add_millis(15000), Time::from_millis(16000));
}
