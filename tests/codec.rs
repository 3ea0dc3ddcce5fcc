use dns_resolver::buffer::BytePacketBuffer;
use dns_resolver::error::DnsError;
use dns_resolver::header::DnsHeader;
use dns_resolver::packet::DnsPacket;
use dns_resolver::question::DnsQuestions;
use dns_resolver::record::DnsRecord;
use dns_resolver::record_type::{RecordType, ResultCode};

fn name(s: &str) -> Vec<u8> {
    s.as_bytes().to_vec()
}

fn round_trip_record(rec: &DnsRecord) -> (DnsRecord, usize, usize) {
    let mut buf = BytePacketBuffer::new();
    let written = rec.write(&mut buf).unwrap();
    let end = buf.pos();
    buf.seek(0).unwrap();
    let back = DnsRecord::read(&mut buf).unwrap();
    assert_eq!(buf.pos(), end);
    (back, written, end)
}

#[test]
fn read_write_words_big_endian() {
    let mut buf = BytePacketBuffer::new();
    buf.write_u16(0x1234).unwrap();
    buf.write_u32(0xdeadbeef).unwrap();
    buf.write(0x7f).unwrap();
    assert_eq!(buf.pos(), 7);
    assert_eq!(&buf.buf[0..7], &[0x12, 0x34, 0xde, 0xad, 0xbe, 0xef, 0x7f]);
    buf.seek(0).unwrap();
    assert_eq!(buf.read_u16().unwrap(), 0x1234);
    assert_eq!(buf.read_u32().unwrap(), 0xdeadbeef);
    assert_eq!(buf.read().unwrap(), 0x7f);
    assert_eq!(buf.get(1).unwrap(), 0x34);
    assert_eq!(buf.get_range(2, 2).unwrap(), &[0xde, 0xad]);
}

#[test]
fn reads_and_writes_stop_at_capacity() {
    let mut buf = BytePacketBuffer::new();
    buf.seek(512).unwrap();
    assert_eq!(buf.read(), Err(DnsError::EndOfBuffer));
    assert_eq!(buf.write(1), Err(DnsError::EndOfBuffer));
    assert_eq!(buf.seek(513), Err(DnsError::EndOfBuffer));
    buf.seek(511).unwrap();
    assert_eq!(buf.read_u16(), Err(DnsError::EndOfBuffer));
    assert_eq!(buf.write_u16(7), Err(DnsError::EndOfBuffer));
    assert_eq!(buf.pos(), 511);
    buf.seek(509).unwrap();
    assert_eq!(buf.read_u32(), Err(DnsError::EndOfBuffer));
    buf.seek(510).unwrap();
    assert_eq!(buf.read_u16().unwrap(), 0);
    assert_eq!(buf.get(512), Err(DnsError::EndOfBuffer));
    assert_eq!(buf.get_range(500, 12), Err(DnsError::EndOfBuffer));
    assert!(buf.get_range(500, 11).is_ok());
    assert_eq!(buf.steps(3), Err(DnsError::EndOfBuffer));
}

#[test]
fn set_u16_patches_in_place() {
    let mut buf = BytePacketBuffer::new();
    buf.write_u32(0).unwrap();
    buf.set_u16(1, 0xabcd).unwrap();
    assert_eq!(buf.pos(), 4);
    assert_eq!(&buf.buf[0..4], &[0, 0xab, 0xcd, 0]);
    assert_eq!(buf.set_u16(511, 1), Err(DnsError::EndOfBuffer));
}

#[test]
fn qname_written_as_labels() {
    let mut buf = BytePacketBuffer::new();
    buf.write_qname(b"www.example.com").unwrap();
    assert_eq!(buf.pos(), 17);
    assert_eq!(&buf.buf[0..17], b"\x03www\x07example\x03com\x00");
    buf.seek(0).unwrap();
    let mut out = Vec::new();
    buf.read_qname(&mut out).unwrap();
    assert_eq!(out, name("www.example.com"));
    assert_eq!(buf.pos(), 17);
}

#[test]
fn qname_lowercased_on_read() {
    let mut buf = BytePacketBuffer::new();
    buf.write_qname(b"WwW.Example.COM").unwrap();
    buf.seek(0).unwrap();
    let mut out = Vec::new();
    buf.read_qname(&mut out).unwrap();
    assert_eq!(out, name("www.example.com"));
}

#[test]
fn qname_label_too_long() {
    let long = vec![b'a'; 64];
    let mut buf = BytePacketBuffer::new();
    assert_eq!(buf.write_qname(&long), Err(DnsError::LabelTooLong));
    let ok = vec![b'a'; 63];
    let mut buf = BytePacketBuffer::new();
    assert!(buf.write_qname(&ok).is_ok());
    assert_eq!(buf.pos(), 65);
}

#[test]
fn qname_that_does_not_fit() {
    let mut buf = BytePacketBuffer::new();
    buf.seek(500).unwrap();
    assert_eq!(buf.write_qname(b"www.example.com"), Err(DnsError::EndOfBuffer));
    assert_eq!(buf.pos(), 500);
}

#[test]
fn qname_compression_pointer() {
    let mut buf = BytePacketBuffer::new();
    buf.seek(12).unwrap();
    buf.write_qname(b"example.com").unwrap();
    let ptr_pos = buf.pos();
    buf.write(0xC0).unwrap();
    buf.write(0x0C).unwrap();
    buf.write_u16(0x4242).unwrap();
    buf.seek(12).unwrap();
    let mut first = Vec::new();
    buf.read_qname(&mut first).unwrap();
    assert_eq!(buf.pos(), ptr_pos);
    let mut second = Vec::new();
    buf.read_qname(&mut second).unwrap();
    assert_eq!(second, first);
    assert_eq!(buf.pos(), ptr_pos + 2);
    assert_eq!(buf.read_u16().unwrap(), 0x4242);
}

#[test]
fn qname_pointer_after_labels() {
    let mut buf = BytePacketBuffer::new();
    buf.write_qname(b"example.com").unwrap();
    let at = buf.pos();
    buf.write(3).unwrap();
    for b in b"www" {
        buf.write(*b).unwrap();
    }
    buf.write(0xC0).unwrap();
    buf.write(0x00).unwrap();
    buf.seek(at).unwrap();
    let mut out = Vec::new();
    buf.read_qname(&mut out).unwrap();
    assert_eq!(out, name("www.example.com"));
    assert_eq!(buf.pos(), at + 6);
}

fn pointer_chain() -> BytePacketBuffer {
    let mut buf = BytePacketBuffer::new();
    buf.write_qname(b"a").unwrap();
    let mut target: u16 = 0;
    for k in 0..6u16 {
        let at = 10 + 2 * k;
        buf.seek(at as usize).unwrap();
        buf.write_u16(0xC000 | target).unwrap();
        target = at;
    }
    buf
}

#[test]
fn jump_limit_five_pointers_succeed() {
    let mut buf = pointer_chain();
    buf.seek(18).unwrap();
    let mut out = Vec::new();
    buf.read_qname(&mut out).unwrap();
    assert_eq!(out, name("a"));
    assert_eq!(buf.pos(), 20);
}

#[test]
fn jump_limit_six_pointers_fail() {
    let mut buf = pointer_chain();
    buf.seek(20).unwrap();
    let mut out = Vec::new();
    assert_eq!(buf.read_qname(&mut out), Err(DnsError::JumpLimit));
}

#[test]
fn pointer_loop_is_stopped() {
    let mut buf = BytePacketBuffer::new();
    buf.write_u16(0xC000).unwrap();
    buf.seek(0).unwrap();
    let mut out = Vec::new();
    assert_eq!(buf.read_qname(&mut out), Err(DnsError::JumpLimit));
}

#[test]
fn record_types_numbers() {
    assert_eq!(RecordType::A.to_num(), 1);
    assert_eq!(RecordType::NS.to_num(), 2);
    assert_eq!(RecordType::CNAME.to_num(), 5);
    assert_eq!(RecordType::MX.to_num(), 15);
    assert_eq!(RecordType::AAAA.to_num(), 28);
    assert_eq!(RecordType::from_num(28), RecordType::AAAA);
    assert_eq!(RecordType::from_num(16), RecordType::UNKNOWN(16));
    assert_eq!(RecordType::UNKNOWN(99).to_num(), 99);
}

#[test]
fn result_code_numbers() {
    assert_eq!(ResultCode::from_num(3), ResultCode::NXDOMAIN);
    assert_eq!(ResultCode::from_num(1), ResultCode::FORMERR);
    assert_eq!(ResultCode::from_num(9), ResultCode::NOERROR);
    assert_eq!(ResultCode::SERVFAIL.to_num(), 2);
    assert_eq!(ResultCode::REFUSED.to_num(), 5);
}

#[test]
fn header_flags_round_trip() {
    let mut h = DnsHeader::new();
    h.id = 0xbeef;
    h.response = true;
    h.opcode = 0;
    h.authoritative_answer = false;
    h.truncated_message = false;
    h.recursion_desired = true;
    let mut buf = BytePacketBuffer::new();
    h.write(&mut buf).unwrap();
    assert_eq!(buf.pos(), 12);
    assert_eq!(buf.buf[2], 0x81);
    buf.seek(0).unwrap();
    let mut back = DnsHeader::new();
    back.read(&mut buf).unwrap();
    assert_eq!(back, h);
    assert!(back.response);
    assert_eq!(back.opcode, 0);
    assert!(!back.authoritative_answer);
    assert!(!back.truncated_message);
    assert!(back.recursion_desired);
}

#[test]
fn header_each_bit_independent() {
    let setters: Vec<fn(&mut DnsHeader)> = vec![
        |h| h.response = true,
        |h| h.authoritative_answer = true,
        |h| h.truncated_message = true,
        |h| h.recursion_desired = true,
        |h| h.recursion_available = true,
        |h| h.z = true,
        |h| h.authed_data = true,
        |h| h.checking_disabled = true,
        |h| h.opcode = 15,
        |h| h.rescode = ResultCode::REFUSED,
    ];
    for set in setters {
        let mut h = DnsHeader::new();
        set(&mut h);
        h.questions = 1;
        h.answers = 2;
        h.authoritative_entries = 3;
        h.resource_entries = 0xffff;
        let mut buf = BytePacketBuffer::new();
        h.write(&mut buf).unwrap();
        buf.seek(0).unwrap();
        let mut back = DnsHeader::new();
        back.read(&mut buf).unwrap();
        assert_eq!(back, h);
    }
}

#[test]
fn header_second_flag_byte_layout() {
    let mut h = DnsHeader::new();
    h.recursion_available = true;
    h.checking_disabled = true;
    h.rescode = ResultCode::NXDOMAIN;
    let mut buf = BytePacketBuffer::new();
    h.write(&mut buf).unwrap();
    assert_eq!(buf.buf[3], 0x80 | 0x10 | 3);
}

#[test]
fn header_does_not_fit() {
    let mut buf = BytePacketBuffer::new();
    buf.seek(501).unwrap();
    assert_eq!(DnsHeader::new().write(&mut buf), Err(DnsError::EndOfBuffer));
    let mut h = DnsHeader::new();
    assert_eq!(h.read(&mut buf), Err(DnsError::EndOfBuffer));
}

#[test]
fn question_round_trip() {
    let q = DnsQuestions::new(name("google.com"), RecordType::MX);
    let mut buf = BytePacketBuffer::new();
    q.write(&mut buf).unwrap();
    assert_eq!(buf.pos(), 16);
    assert_eq!(&buf.buf[12..16], &[0, 15, 0, 1]);
    buf.seek(0).unwrap();
    let mut back = DnsQuestions::new(Vec::new(), RecordType::UNKNOWN(0));
    back.read(&mut buf).unwrap();
    assert_eq!(back, q);
    assert_eq!(buf.pos(), 16);
}

#[test]
fn record_a_round_trip() {
    let rec = DnsRecord::A { domain: name("www.example.com"), addr: 0x5db8d822, ttl: 3600 };
    let (back, written, end) = round_trip_record(&rec);
    assert_eq!(back, rec);
    assert_eq!(written, 17 + 10 + 4);
    assert_eq!(end, written);
}

#[test]
fn record_a_wire_bytes() {
    let rec = DnsRecord::A { domain: name("a.b"), addr: 0x01020304, ttl: 0x0a0b0c0d };
    let mut buf = BytePacketBuffer::new();
    let n = rec.write(&mut buf).unwrap();
    assert_eq!(n, 19);
    assert_eq!(
        &buf.buf[0..19],
        &[1, b'a', 1, b'b', 0, 0, 1, 0, 1, 0x0a, 0x0b, 0x0c, 0x0d, 0, 4, 1, 2, 3, 4]
    );
}

#[test]
fn record_ns_round_trip() {
    let rec = DnsRecord::NS { domain: name("example.com"), host: name("ns1.example.com"), ttl: 172800 };
    let (back, written, _) = round_trip_record(&rec);
    assert_eq!(back, rec);
    assert_eq!(written, 13 + 10 + 17);
}

#[test]
fn record_ns_data_length_patched() {
    let mut buf = BytePacketBuffer::new();
    buf.write_u16(0x1111).unwrap();
    let rec = DnsRecord::NS { domain: name("a"), host: name("ns.a"), ttl: 1 };
    rec.write(&mut buf).unwrap();
    assert_eq!(&buf.buf[0..2], &[0x11, 0x11]);
    assert_eq!(&buf.buf[2 + 3 + 8..2 + 3 + 10], &[0, 6]);
    assert_eq!(buf.buf[2 + 3 + 10], 2);
}

#[test]
fn record_cname_round_trip() {
    let rec = DnsRecord::CNAME { domain: name("www.example.com"), host: name("example.com"), ttl: 60 };
    let (back, _, _) = round_trip_record(&rec);
    assert_eq!(back, rec);
}

#[test]
fn record_mx_round_trip() {
    let rec = DnsRecord::MX { domain: name("example.com"), host: name("mail.example.com"), priority: 10, ttl: 300 };
    let (back, written, _) = round_trip_record(&rec);
    assert_eq!(back, rec);
    assert_eq!(written, 13 + 10 + 2 + 18);
}

#[test]
fn record_aaaa_round_trip() {
    let rec = DnsRecord::AAAA {
        domain: name("ipv6.example.com"),
        addr: [0x2001, 0x0db8, 0, 0, 0, 0xff00, 0x0042, 0x8329],
        ttl: u32::MAX,
    };
    let (back, written, _) = round_trip_record(&rec);
    assert_eq!(back, rec);
    assert_eq!(written, 18 + 10 + 16);
}

#[test]
fn record_unknown_skipped_on_read() {
    let mut buf = BytePacketBuffer::new();
    buf.write_qname(b"x.org").unwrap();
    buf.write_u16(16).unwrap();
    buf.write_u16(1).unwrap();
    buf.write_u32(30).unwrap();
    buf.write_u16(5).unwrap();
    for b in b"hello" {
        buf.write(*b).unwrap();
    }
    let end = buf.pos();
    buf.seek(0).unwrap();
    let rec = DnsRecord::read(&mut buf).unwrap();
    assert_eq!(rec, DnsRecord::UNKNOWN { domain: name("x.org"), qtype: 16, data_len: 5, ttl: 30 });
    assert_eq!(buf.pos(), end);
}

#[test]
fn record_unknown_not_written() {
    let rec = DnsRecord::UNKNOWN { domain: name("x.org"), qtype: 16, data_len: 5, ttl: 30 };
    let mut buf = BytePacketBuffer::new();
    assert_eq!(rec.write(&mut buf).unwrap(), 0);
    assert_eq!(buf.pos(), 0);
}

#[test]
fn record_label_too_long() {
    let mut host = vec![b'h'; 70];
    host.extend_from_slice(b".com");
    let rec = DnsRecord::CNAME { domain: name("a.com"), host, ttl: 1 };
    let mut buf = BytePacketBuffer::new();
    assert_eq!(rec.write(&mut buf), Err(DnsError::LabelTooLong));
}

#[test]
fn record_truncated_read_fails() {
    let rec = DnsRecord::A { domain: name("a.com"), addr: 1, ttl: 1 };
    let mut buf = BytePacketBuffer::new();
    buf.seek(512 - 20).unwrap();
    assert_eq!(rec.write(&mut buf), Err(DnsError::EndOfBuffer));
    assert_eq!(buf.pos(), 512 - 20);
    buf.seek(512 - 21).unwrap();
    assert_eq!(rec.write(&mut buf).unwrap(), 21);
    buf.seek(512 - 21).unwrap();
    assert_eq!(DnsRecord::read(&mut buf).unwrap(), rec);
    buf.seek(512 - 19).unwrap();
    buf.write_qname(b"a.com").unwrap();
    buf.write_u16(1).unwrap();
    buf.write_u16(1).unwrap();
    buf.write_u32(1).unwrap();
    buf.write_u16(4).unwrap();
    buf.seek(512 - 19).unwrap();
    assert_eq!(DnsRecord::read(&mut buf), Err(DnsError::EndOfBuffer));
}

fn a_rec(d: &str, addr: u32) -> DnsRecord {
    DnsRecord::A { domain: name(d), addr, ttl: 100 }
}

#[test]
fn packet_counts_derived_on_write() {
    let mut p = DnsPacket::new();
    p.header.questions = 7;
    p.header.answers = 7;
    p.header.authoritative_entries = 7;
    p.header.resource_entries = 7;
    p.answers.push(a_rec("a.com", 1));
    p.answers.push(a_rec("b.com", 2));
    p.resources.push(a_rec("c.com", 3));
    let mut buf = BytePacketBuffer::new();
    p.write(&mut buf).unwrap();
    assert_eq!(p.header.questions, 0);
    assert_eq!(p.header.answers, 2);
    assert_eq!(p.header.authoritative_entries, 0);
    assert_eq!(p.header.resource_entries, 1);
    assert_eq!(&buf.buf[4..12], &[0, 0, 0, 2, 0, 0, 0, 1]);
    buf.seek(0).unwrap();
    let back = DnsPacket::from_buffer(&mut buf).unwrap();
    assert_eq!(back.answers, p.answers);
    assert_eq!(back.resources, p.resources);
    assert!(back.questions.is_empty());
    assert!(back.authorities.is_empty());
}

#[test]
fn packet_unknown_dropped_on_write() {
    let known = vec![a_rec("a.com", 1), a_rec("b.com", 2), a_rec("c.com", 3)];
    let mut p = DnsPacket::new();
    p.answers.push(known[0].clone());
    p.answers.push(DnsRecord::UNKNOWN { domain: name("u.com"), qtype: 99, data_len: 4, ttl: 5 });
    p.answers.push(known[1].clone());
    p.answers.push(known[2].clone());
    let mut buf = BytePacketBuffer::new();
    p.write(&mut buf).unwrap();
    let mut expected = BytePacketBuffer::new();
    let mut total = 12;
    for r in &known {
        total += r.write(&mut expected).unwrap();
    }
    assert_eq!(buf.pos(), total);
    // Only the records actually written are counted.
    assert_eq!(p.header.answers, 3);
    assert_eq!(&buf.buf[6..8], &[0, 3]);
    assert_eq!(&buf.buf[12..total], &expected.buf[0..total - 12]);
    buf.seek(0).unwrap();
    let back = DnsPacket::from_buffer(&mut buf).unwrap();
    assert_eq!(back.answers, known);
    assert_eq!(buf.pos(), total);
}

#[test]
fn question_class_must_fit() {
    let mut buf = BytePacketBuffer::new();
    buf.seek(512 - 7).unwrap();
    buf.write_qname(b"a.b").unwrap();
    buf.write_u16(1).unwrap();
    assert_eq!(buf.pos(), 512);
    buf.seek(512 - 7).unwrap();
    let mut q = DnsQuestions::new(Vec::new(), RecordType::UNKNOWN(0));
    assert_eq!(q.read(&mut buf), Err(DnsError::EndOfBuffer));
}

#[test]
fn packet_round_trip_with_question() {
    let mut p = DnsPacket::new();
    p.header.id = 77;
    p.header.response = true;
    p.questions.push(DnsQuestions::new(name("example.com"), RecordType::A));
    p.answers.push(a_rec("example.com", 0x5db8d822));
    p.authorities.push(DnsRecord::NS { domain: name("example.com"), host: name("ns.example.com"), ttl: 9 });
    let mut buf = BytePacketBuffer::new();
    p.write(&mut buf).unwrap();
    let end = buf.pos();
    buf.seek(0).unwrap();
    let back = DnsPacket::from_buffer(&mut buf).unwrap();
    assert_eq!(buf.pos(), end);
    assert_eq!(back.header, p.header);
    assert_eq!(back.questions, p.questions);
    assert_eq!(back.answers, p.answers);
    assert_eq!(back.authorities, p.authorities);
}

#[test]
fn packet_bad_answer_fails() {
    let mut h = DnsHeader::new();
    h.answers = 1;
    let mut buf = BytePacketBuffer::new();
    h.write(&mut buf).unwrap();
    let mut data = BytePacketBuffer::new();
    data.buf[0..12].copy_from_slice(&buf.buf[0..12]);
    data.buf[12] = 0xC0;
    data.buf[13] = 0x0C;
    data.buf[14] = 0xC0;
    data.buf[15] = 0x0E;
    assert!(DnsPacket::from_buffer(&mut data).is_err());
}
