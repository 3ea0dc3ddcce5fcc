use dns_resolver::buffer::BytePacketBuffer;
use dns_resolver::error::DnsError;
use dns_resolver::packet::DnsPacket;
use dns_resolver::question::DnsQuestions;
use dns_resolver::record::DnsRecord;
use dns_resolver::record_type::{RecordType, ResultCode};
use dns_resolver::resolver::{
    answer_response, build_query, handle_request, raw_request_id, Incoming, Lookup, Step, MAX_DEPTH, MAX_HOPS, QUERY_ID,
    ROOT_SERVER,
};

fn name(s: &str) -> Vec<u8> {
    s.as_bytes().to_vec()
}

const GLUE: u32 = 0x0a000001;
const ANSWER: u32 = 0x5db8d822;

fn ns(d: &str, h: &str) -> DnsRecord {
    DnsRecord::NS { domain: name(d), host: name(h), ttl: 172800 }
}

fn a(d: &str, addr: u32) -> DnsRecord {
    DnsRecord::A { domain: name(d), addr, ttl: 3600 }
}

/// Passes a packet through the wire form, as a real upstream exchange would.
fn over_wire(mut p: DnsPacket) -> DnsPacket {
    let mut buf = BytePacketBuffer::new();
    p.write(&mut buf).unwrap();
    buf.seek(0).unwrap();
    DnsPacket::from_buffer(&mut buf).unwrap()
}

/// A mocked upstream: the root refers `example.com` to `ns1.example.com`
/// with glue; the glued server answers.
fn mock_upstream(server: u32, query: &DnsPacket) -> DnsPacket {
    let q = &query.questions[0];
    let mut p = DnsPacket::new();
    p.header.id = query.header.id;
    p.header.response = true;
    p.questions.push(q.clone());
    if server == ROOT_SERVER {
        p.authorities.push(ns("example.com", "ns1.example.com"));
        p.resources.push(a("ns1.example.com", GLUE));
    } else if server == GLUE {
        p.header.authoritative_answer = true;
        p.answers.push(a(std::str::from_utf8(&q.name).unwrap(), ANSWER));
    }
    over_wire(p)
}

/// Drives a lookup against `upstream`, counting round trips.
fn drive(
    qname: &[u8],
    qtype: RecordType,
    depth: u32,
    upstream: &dyn Fn(u32, &DnsPacket) -> DnsPacket,
    trips: &mut usize,
) -> Option<DnsPacket> {
    let mut lookup = Lookup::start(qname.to_vec(), qtype, depth);
    let mut server = lookup.server;
    loop {
        let query = over_wire(build_query(qname.to_vec(), qtype));
        *trips += 1;
        let response = upstream(server, &query);
        let mut step = lookup.on_response(response);
        loop {
            match step {
                Step::Query(next) => {
                    server = next;
                    break;
                }
                Step::Done(p) => return Some(p),
                Step::GiveUp => return None,
                Step::Resolve { host, pending } => {
                    let inner = lookup.nested(host);
                    assert_eq!(inner.depth, depth + 1);
                    let nested = drive(&inner.qname, inner.qtype, inner.depth, upstream, trips);
                    step = lookup.on_nested(nested, pending);
                }
            }
        }
    }
}

#[test]
fn end_to_end_glued_referral() {
    let mut trips = 0;
    let result = drive(b"www.example.com", RecordType::A, 0, &mock_upstream, &mut trips).unwrap();
    assert_eq!(trips, 2);
    assert_eq!(result.header.rescode, ResultCode::NOERROR);
    assert_eq!(result.answers, vec![a("www.example.com", ANSWER)]);
}

#[test]
fn referral_without_glue_resolves_host() {
    let upstream = |server: u32, query: &DnsPacket| -> DnsPacket {
        let q = &query.questions[0];
        let mut p = DnsPacket::new();
        p.header.response = true;
        if server == ROOT_SERVER && q.name == name("www.example.com") {
            p.authorities.push(ns("example.com", "ns.other.net"));
        } else if server == ROOT_SERVER && q.name == name("ns.other.net") {
            p.answers.push(a("ns.other.net", GLUE));
        } else if server == GLUE {
            p.answers.push(a("www.example.com", ANSWER));
        }
        over_wire(p)
    };
    let mut trips = 0;
    let result = drive(b"www.example.com", RecordType::A, 0, &upstream, &mut trips).unwrap();
    assert_eq!(trips, 3);
    assert_eq!(result.answers, vec![a("www.example.com", ANSWER)]);
}

#[test]
fn nxdomain_short_circuits() {
    let mut p = DnsPacket::new();
    p.header.rescode = ResultCode::NXDOMAIN;
    p.authorities.push(ns("example.com", "ns1.example.com"));
    p.resources.push(a("ns1.example.com", GLUE));
    let mut lookup = Lookup::start(name("nope.example.com"), RecordType::A, 0);
    match lookup.on_response(p.clone()) {
        Step::Done(r) => {
            assert_eq!(r.header.rescode, ResultCode::NXDOMAIN);
            assert_eq!(r.authorities, p.authorities);
        }
        _ => panic!("an NXDOMAIN response ends the lookup"),
    }
    assert_eq!(lookup.server, ROOT_SERVER);
    assert_eq!(lookup.hops, 0);
}

#[test]
fn answer_with_error_code_is_not_final() {
    let mut p = DnsPacket::new();
    p.header.rescode = ResultCode::SERVFAIL;
    p.answers.push(a("www.example.com", ANSWER));
    p.authorities.push(ns("example.com", "ns1.example.com"));
    p.resources.push(a("ns1.example.com", GLUE));
    let mut lookup = Lookup::start(name("www.example.com"), RecordType::A, 0);
    assert!(matches!(lookup.on_response(p), Step::Query(GLUE)));
    assert_eq!(lookup.server, GLUE);
    assert_eq!(lookup.hops, 1);
}

#[test]
fn no_matching_ns_returns_response() {
    let mut p = DnsPacket::new();
    p.authorities.push(ns("example.org", "ns1.example.org"));
    let mut lookup = Lookup::start(name("www.example.com"), RecordType::A, 0);
    match lookup.on_response(p) {
        Step::Done(r) => assert_eq!(r.authorities.len(), 1),
        _ => panic!("nothing to follow"),
    }
}

#[test]
fn hop_limit_gives_up() {
    let mut p = DnsPacket::new();
    p.authorities.push(ns("example.com", "ns1.example.com"));
    p.resources.push(a("ns1.example.com", GLUE));
    let mut lookup = Lookup::start(name("www.example.com"), RecordType::A, 0);
    lookup.hops = MAX_HOPS;
    assert!(matches!(lookup.on_response(p), Step::GiveUp));
}

#[test]
fn depth_limit_returns_response() {
    let mut p = DnsPacket::new();
    p.authorities.push(ns("example.com", "ns1.example.com"));
    let mut lookup = Lookup::start(name("www.example.com"), RecordType::A, MAX_DEPTH);
    match lookup.on_response(p) {
        Step::Done(r) => assert_eq!(r.authorities.len(), 1),
        _ => panic!("no nested lookup at the depth limit"),
    }
}

#[test]
fn failed_nested_lookup_returns_pending() {
    let mut pending = DnsPacket::new();
    pending.authorities.push(ns("example.com", "ns.other.net"));
    let mut lookup = Lookup::start(name("www.example.com"), RecordType::A, 0);
    match lookup.on_nested(None, pending.clone()) {
        Step::Done(r) => assert_eq!(r.authorities, pending.authorities),
        _ => panic!("a failed nested lookup ends this one"),
    }
    let mut empty = DnsPacket::new();
    empty.authorities.push(ns("net", "x.net"));
    match lookup.on_nested(Some(empty), pending.clone()) {
        Step::Done(r) => assert_eq!(r.authorities, pending.authorities),
        _ => panic!("a nested lookup without an address ends this one"),
    }
    let mut found = DnsPacket::new();
    found.answers.push(DnsRecord::CNAME { domain: name("ns.other.net"), host: name("h.net"), ttl: 1 });
    found.answers.push(a("h.net", 42));
    assert!(matches!(lookup.on_nested(Some(found), pending), Step::Query(42)));
    assert_eq!(lookup.server, 42);
}

#[test]
fn resolved_and_unresolved_ns() {
    let mut p = DnsPacket::new();
    p.authorities.push(a("example.com", 5));
    p.authorities.push(ns("other.com", "ns.other.com"));
    p.authorities.push(ns("example.com", "ns1.example.com"));
    p.authorities.push(ns("com", "a.gtld.net"));
    p.resources.push(a("ns9.example.com", 9));
    p.resources.push(a("a.gtld.net", 7));
    assert_eq!(p.get_resolved_ns(b"www.example.com"), Some(7));
    assert_eq!(p.get_unresolved_ns(b"www.example.com"), Some(&b"ns1.example.com"[..]));
    assert_eq!(p.get_unresolved_ns(b"www.example.org"), None);
    assert_eq!(p.get_resolved_ns(b"www.example.org"), None);
    p.resources.push(a("ns1.example.com", 11));
    assert_eq!(p.get_resolved_ns(b"www.example.com"), Some(11));
}

#[test]
fn first_a_record() {
    let mut p = DnsPacket::new();
    assert_eq!(p.get_random_a(), None);
    p.answers.push(DnsRecord::CNAME { domain: name("a.com"), host: name("b.com"), ttl: 1 });
    p.answers.push(a("b.com", 3));
    p.answers.push(a("b.com", 4));
    assert_eq!(p.get_random_a(), Some(3));
}

#[test]
fn nested_lookup_goes_one_level_deeper() {
    let outer = Lookup::start(name("www.example.com"), RecordType::MX, 3);
    let inner = outer.nested(name("ns.other.net"));
    assert_eq!(inner.qname, name("ns.other.net"));
    assert_eq!(inner.qtype, RecordType::A);
    assert_eq!(inner.server, ROOT_SERVER);
    assert_eq!(inner.hops, 0);
    assert_eq!(inner.depth, 4);
}

#[test]
fn query_packet_shape() {
    let q = build_query(name("example.com"), RecordType::MX);
    assert_eq!(q.header.id, QUERY_ID);
    assert!(q.header.recursion_desired);
    assert_eq!(q.header.questions, 1);
    assert_eq!(q.questions, vec![DnsQuestions::new(name("example.com"), RecordType::MX)]);
}

#[test]
fn format_error_for_no_question() {
    let mut req = DnsPacket::new();
    req.header.id = 4321;
    let req = over_wire(req);
    match handle_request(Ok(req), 4321) {
        Incoming::Reply(p) => {
            assert_eq!(p.header.rescode, ResultCode::FORMERR);
            assert_eq!(p.header.id, 4321);
            assert!(p.header.response);
            assert!(p.questions.is_empty() && p.answers.is_empty());
        }
        _ => panic!("a request without a question is answered at once"),
    }
}

#[test]
fn format_error_for_undecodable_request() {
    let mut buf = BytePacketBuffer::new();
    buf.write_u16(0x5151).unwrap();
    buf.write_u16(0).unwrap();
    buf.write_u16(1).unwrap();
    buf.seek(12).unwrap();
    for k in 0..6u16 {
        buf.write_u16(0xC000 | (12 + 2 * (k + 1))).unwrap();
    }
    buf.seek(0).unwrap();
    let request = DnsPacket::from_buffer(&mut buf);
    assert!(request.is_err());
    match handle_request(request, raw_request_id(&buf)) {
        Incoming::Reply(p) => {
            assert_eq!(p.header.rescode, ResultCode::FORMERR);
            assert_eq!(p.header.id, 0x5151);
        }
        _ => panic!("an undecodable request is answered at once"),
    }
}

#[test]
fn first_question_is_answered() {
    let mut req = DnsPacket::new();
    req.header.id = 9;
    req.questions.push(DnsQuestions::new(name("one.com"), RecordType::A));
    req.questions.push(DnsQuestions::new(name("two.com"), RecordType::MX));
    match handle_request(Ok(req), 0) {
        Incoming::Resolve { id, question } => {
            assert_eq!(id, 9);
            assert_eq!(question, DnsQuestions::new(name("one.com"), RecordType::A));
        }
        _ => panic!("a request with a question is looked up"),
    }
}

#[test]
fn response_from_lookup_result() {
    let q = DnsQuestions::new(name("www.example.com"), RecordType::A);
    let mut res = DnsPacket::new();
    res.header.rescode = ResultCode::NXDOMAIN;
    res.authorities.push(ns("example.com", "ns1.example.com"));
    let mut r = answer_response(55, q.clone(), Some(res));
    assert_eq!(r.header.id, 55);
    assert!(r.header.response && r.header.recursion_desired && r.header.recursion_available);
    assert_eq!(r.header.rescode, ResultCode::NXDOMAIN);
    assert_eq!(r.questions, vec![q.clone()]);
    assert_eq!(r.authorities.len(), 1);
    let mut buf = BytePacketBuffer::new();
    r.write(&mut buf).unwrap();
    assert_eq!(&buf.buf[0..2], &[0, 55]);
    let failed = answer_response(56, q, None);
    assert_eq!(failed.header.rescode, ResultCode::SERVFAIL);
    assert!(failed.questions.is_empty());
}
