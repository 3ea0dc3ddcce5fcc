//! Resource records and their wire codec.
use vstd::prelude::*;
use crate::header::lemma_be16_round_trip;
use crate::buffer::{BytePacketBuffer, BUF_SIZE, u16_at, u32_at, u16_bytes, u32_bytes, name_at, wire_name,
    valid_name, lemma_name_round_trip, be16, be32,
    labels_of, labels_fit, spliced, lemma_splice_chain, lemma_wire_len};
use crate::error::DnsError;
use crate::record_type::{RecordType, type_of_code};

verus! {

/// A resource record. `UNKNOWN` keeps only what identifies a record of a type
/// this resolver does not read; its payload is skipped.
#[allow(inconsistent_fields)]
#[derive(Debug, Clone, PartialEq, Eq, Hash)]
pub enum DnsRecord {
    UNKNOWN { domain: Vec<u8>, qtype: u16, data_len: u16, ttl: u32 },
    A { domain: Vec<u8>, addr: u32, ttl: u32 },
    NS { domain: Vec<u8>, host: Vec<u8>, ttl: u32 },
    CNAME { domain: Vec<u8>, host: Vec<u8>, ttl: u32 },
    MX { domain: Vec<u8>, host: Vec<u8>, priority: u16, ttl: u32 },
    AAAA { domain: Vec<u8>, addr: [u16; 8], ttl: u32 },
}

/// A record as plain values.
pub enum RecordModel {
    Unknown { domain: Seq<u8>, qtype: u16, data_len: u16, ttl: u32 },
    A { domain: Seq<u8>, addr: u32, ttl: u32 },
    Ns { domain: Seq<u8>, host: Seq<u8>, ttl: u32 },
    Cname { domain: Seq<u8>, host: Seq<u8>, ttl: u32 },
    Mx { domain: Seq<u8>, host: Seq<u8>, priority: u16, ttl: u32 },
    Aaaa { domain: Seq<u8>, segments: Seq<u16>, ttl: u32 },
}

impl View for DnsRecord {
    type V = RecordModel;

    open spec fn view(&self) -> RecordModel {
        match self {
            DnsRecord::UNKNOWN { domain, qtype, data_len, ttl } =>
                RecordModel::Unknown { domain: domain@, qtype: *qtype, data_len: *data_len, ttl: *ttl },
            DnsRecord::A { domain, addr, ttl } => RecordModel::A { domain: domain@, addr: *addr, ttl: *ttl },
            DnsRecord::NS { domain, host, ttl } => RecordModel::Ns { domain: domain@, host: host@, ttl: *ttl },
            DnsRecord::CNAME { domain, host, ttl } => RecordModel::Cname { domain: domain@, host: host@, ttl: *ttl },
            DnsRecord::MX { domain, host, priority, ttl } =>
                RecordModel::Mx { domain: domain@, host: host@, priority: *priority, ttl: *ttl },
            DnsRecord::AAAA { domain, addr, ttl } => RecordModel::Aaaa { domain: domain@, segments: addr@, ttl: *ttl },
        }
    }
}

/// The eight 16-bit groups of an IPv6 address stored from `p` on.
pub open spec fn segs_at(b: Seq<u8>, p: int) -> Seq<u16> {
    Seq::new(8, |i: int| u16_at(b, p + 2 * i))
}

/// The wire form of eight 16-bit groups.
pub open spec fn segs_bytes(a: Seq<u16>) -> Seq<u8> {
    segs_prefix(a, 8)
}

/// Reads a record at `p`: the record and where reading resumes.
pub open spec fn record_at(b: Seq<u8>, p: int) -> Result<(RecordModel, int), DnsError> {
    match name_at(b, p) {
        Err(e) => Err(e),
        Ok((domain, p1)) => if p1 + 10 > 512 {
            Err(DnsError::EndOfBuffer)
        } else {
            let code = u16_at(b, p1);
            let ttl = u32_at(b, p1 + 4);
            let len = u16_at(b, p1 + 8);
            let p2 = p1 + 10;
            match type_of_code(code) {
                RecordType::A => if p2 + 4 > 512 {
                    Err(DnsError::EndOfBuffer)
                } else {
                    Ok((RecordModel::A { domain, addr: u32_at(b, p2), ttl }, p2 + 4))
                },
                RecordType::UNKNOWN(_) => if p2 + len > 512 {
                    Err(DnsError::EndOfBuffer)
                } else {
                    Ok((RecordModel::Unknown { domain, qtype: code, data_len: len, ttl }, p2 + len))
                },
                RecordType::NS => match name_at(b, p2) {
                    Ok((host, end)) => Ok((RecordModel::Ns { domain, host, ttl }, end)),
                    Err(e) => Err(e),
                },
                RecordType::CNAME => match name_at(b, p2) {
                    Ok((host, end)) => Ok((RecordModel::Cname { domain, host, ttl }, end)),
                    Err(e) => Err(e),
                },
                RecordType::MX => if p2 + 2 > 512 {
                    Err(DnsError::EndOfBuffer)
                } else {
                    match name_at(b, p2 + 2) {
                        Ok((host, end)) => Ok((RecordModel::Mx { domain, host, priority: u16_at(b, p2), ttl }, end)),
                        Err(e) => Err(e),
                    }
                },
                RecordType::AAAA => if p2 + 16 > 512 {
                    Err(DnsError::EndOfBuffer)
                } else {
                    Ok((RecordModel::Aaaa { domain, segments: segs_at(b, p2), ttl }, p2 + 16))
                },
            }
        },
    }
}

/// Owner name, type, class 1, ttl and data length of a record on the wire.
pub open spec fn rr_head(domain: Seq<u8>, code: u16, ttl: u32, len: u16) -> Seq<u8> {
    wire_name(domain) + u16_bytes(code) + u16_bytes(1) + u32_bytes(ttl) + u16_bytes(len)
}

/// The wire form of a record; an unknown record is not written at all.
pub open spec fn record_bytes(r: RecordModel) -> Seq<u8> {
    match r {
        RecordModel::Unknown { .. } => seq![],
        RecordModel::A { domain, addr, ttl } => rr_head(domain, 1, ttl, 4) + u32_bytes(addr),
        RecordModel::Ns { domain, host, ttl } =>
            rr_head(domain, 2, ttl, wire_name(host).len() as u16) + wire_name(host),
        RecordModel::Cname { domain, host, ttl } =>
            rr_head(domain, 5, ttl, wire_name(host).len() as u16) + wire_name(host),
        RecordModel::Mx { domain, host, priority, ttl } =>
            rr_head(domain, 15, ttl, (wire_name(host).len() + 2) as u16) + u16_bytes(priority) + wire_name(host),
        RecordModel::Aaaa { domain, segments, ttl } => rr_head(domain, 28, ttl, 16) + segs_bytes(segments),
    }
}

/// Every name of a record has labels of at most 63 bytes.
pub open spec fn record_names_fit(r: RecordModel) -> bool {
    match r {
        RecordModel::Unknown { .. } => true,
        RecordModel::A { domain, .. } => labels_fit(labels_of(domain)),
        RecordModel::Aaaa { domain, .. } => labels_fit(labels_of(domain)),
        RecordModel::Ns { domain, host, .. } => labels_fit(labels_of(domain)) && labels_fit(labels_of(host)),
        RecordModel::Cname { domain, host, .. } => labels_fit(labels_of(domain)) && labels_fit(labels_of(host)),
        RecordModel::Mx { domain, host, .. } => labels_fit(labels_of(domain)) && labels_fit(labels_of(host)),
    }
}

impl DnsRecord {
    /// Reads a record at the cursor of `buffer`.
    pub fn read(buffer: &mut BytePacketBuffer) -> (r: Result<DnsRecord, DnsError>)
        requires
            old(buffer).wf(),
        ensures
            final(buffer).wf(),
            final(buffer).buf == old(buffer).buf,
            match record_at(old(buffer).bytes(), old(buffer).pos as int) {
                Ok((rec, end)) => r.is_ok() && r.unwrap()@ == rec && final(buffer).pos == end,
                Err(e) => r == Err::<DnsRecord, DnsError>(e),
            },
    {
        let ghost b = buffer.bytes();
        let mut domain: Vec<u8> = Vec::new();
        match buffer.read_qname(&mut domain) {
            Ok(()) => {},
            Err(e) => return Err(e),
        }
        assert(domain@ =~= Seq::<u8>::empty() + domain@);
        if buffer.pos > BUF_SIZE - 10 {
            return Err(DnsError::EndOfBuffer);
        }
        let ghost p1 = buffer.pos as int;
        let qtype_num = buffer.read_u16()?;
        let qtype = RecordType::from_num(qtype_num);
        let _ = buffer.read_u16();
        let ttl = buffer.read_u32()?;
        let data_len = buffer.read_u16()?;
        let ghost p2 = buffer.pos as int;
        match qtype {
            RecordType::A => {
                if buffer.pos > BUF_SIZE - 4 {
                    return Err(DnsError::EndOfBuffer);
                }
                let addr = buffer.read_u32()?;
                Ok(DnsRecord::A { domain, addr, ttl })
            },
            RecordType::UNKNOWN(_) => {
                match buffer.steps(data_len as usize) {
                    Ok(()) => {},
                    Err(e) => return Err(e),
                }
                Ok(DnsRecord::UNKNOWN { domain, qtype: qtype_num, data_len, ttl })
            },
            RecordType::NS => {
                let mut host: Vec<u8> = Vec::new();
                match buffer.read_qname(&mut host) {
                    Ok(()) => {},
                    Err(e) => return Err(e),
                }
                assert(host@ =~= Seq::<u8>::empty() + host@);
                Ok(DnsRecord::NS { domain, host, ttl })
            },
            RecordType::CNAME => {
                let mut host: Vec<u8> = Vec::new();
                match buffer.read_qname(&mut host) {
                    Ok(()) => {},
                    Err(e) => return Err(e),
                }
                assert(host@ =~= Seq::<u8>::empty() + host@);
                Ok(DnsRecord::CNAME { domain, host, ttl })
            },
            RecordType::MX => {
                if buffer.pos > BUF_SIZE - 2 {
                    return Err(DnsError::EndOfBuffer);
                }
                let priority = buffer.read_u16()?;
                let mut host: Vec<u8> = Vec::new();
                match buffer.read_qname(&mut host) {
                    Ok(()) => {},
                    Err(e) => return Err(e),
                }
                assert(host@ =~= Seq::<u8>::empty() + host@);
                Ok(DnsRecord::MX { domain, host, priority, ttl })
            },
            RecordType::AAAA => {
                if buffer.pos > BUF_SIZE - 16 {
                    return Err(DnsError::EndOfBuffer);
                }
                let s0 = buffer.read_u16()?;
                let s1 = buffer.read_u16()?;
                let s2 = buffer.read_u16()?;
                let s3 = buffer.read_u16()?;
                let s4 = buffer.read_u16()?;
                let s5 = buffer.read_u16()?;
                let s6 = buffer.read_u16()?;
                let s7 = buffer.read_u16()?;
                let addr: [u16; 8] = [s0, s1, s2, s3, s4, s5, s6, s7];
                assert(addr@ =~= segs_at(b, p2));
                Ok(DnsRecord::AAAA { domain, addr, ttl })
            },
        }
    }

    /// Writes this record at the cursor and returns how many bytes it took.
    /// An `UNKNOWN` record is skipped: nothing is written and the count is 0.
    /// Fails with `EndOfBuffer`, writing nothing, unless the record fits; else
    /// with `LabelTooLong` if a label of one of its names is over 63 bytes.
    pub fn write(&self, buffer: &mut BytePacketBuffer) -> (r: Result<usize, DnsError>)
        requires
            old(buffer).wf(),
        ensures
            final(buffer).wf(),
            old(buffer).pos + record_bytes(self@).len() > BUF_SIZE ==> r == Err::<usize, DnsError>(DnsError::EndOfBuffer)
                && *final(buffer) == *old(buffer),
            old(buffer).pos + record_bytes(self@).len() <= BUF_SIZE ==> {
                &&& r.is_ok() == record_names_fit(self@)
                &&& r.is_err() ==> r == Err::<usize, DnsError>(DnsError::LabelTooLong)
                &&& r.is_ok() ==> spliced(old(buffer).bytes(), final(buffer).bytes(), old(buffer).pos as int, record_bytes(self@))
                    && final(buffer).pos == old(buffer).pos + record_bytes(self@).len()
                    && r.unwrap() == record_bytes(self@).len()
            },
    {
        let start_pos = buffer.pos;
        let ghost a = buffer.bytes();
        let ghost p = buffer.pos as int;
        match self {
            DnsRecord::UNKNOWN { .. } => {
                assert(a =~= a.take(p) + record_bytes(self@) + a.skip(p));
                return Ok(0);
            },
            DnsRecord::A { domain, addr, ttl } => {
                match write_a(buffer, domain.as_slice(), *addr, *ttl) {
                    Ok(()) => {},
                    Err(e) => return Err(e),
                }
            },
            DnsRecord::AAAA { domain, addr, ttl } => {
                match write_aaaa(buffer, domain.as_slice(), addr, *ttl) {
                    Ok(()) => {},
                    Err(e) => return Err(e),
                }
            },
            DnsRecord::NS { domain, host, ttl } => {
                match write_named(buffer, 2, domain.as_slice(), host.as_slice(), &None, *ttl) {
                    Ok(()) => {},
                    Err(e) => return Err(e),
                }
            },
            DnsRecord::CNAME { domain, host, ttl } => {
                match write_named(buffer, 5, domain.as_slice(), host.as_slice(), &None, *ttl) {
                    Ok(()) => {},
                    Err(e) => return Err(e),
                }
            },
            DnsRecord::MX { domain, host, priority, ttl } => {
                match write_named(buffer, 15, domain.as_slice(), host.as_slice(), &Some(*priority), *ttl) {
                    Ok(()) => {},
                    Err(e) => return Err(e),
                }
            },
        }
        Ok(buffer.pos - start_pos)
    }
}

/// Writes an address record.
fn write_a(buffer: &mut BytePacketBuffer, domain: &[u8], addr: u32, ttl: u32) -> (r: Result<(), DnsError>)
    requires
        old(buffer).wf(),
    ensures
        final(buffer).wf(),
        ({
            let w = record_bytes(RecordModel::A { domain: domain@, addr, ttl });
            &&& old(buffer).pos + w.len() > BUF_SIZE ==> r == Err::<(), DnsError>(DnsError::EndOfBuffer)
                && *final(buffer) == *old(buffer)
            &&& old(buffer).pos + w.len() <= BUF_SIZE ==> {
                &&& r.is_ok() == labels_fit(labels_of(domain@))
                &&& r.is_err() ==> r == Err::<(), DnsError>(DnsError::LabelTooLong)
                &&& r.is_ok() ==> spliced(old(buffer).bytes(), final(buffer).bytes(), old(buffer).pos as int, w)
                    && final(buffer).pos == old(buffer).pos + w.len()
            }
        }),
{
    let ghost a = buffer.bytes();
    let ghost p = buffer.pos as int;
    proof { lemma_wire_len(domain@, 0); }
    if domain.len() > BUF_SIZE || buffer.pos + domain.len() + 16 > BUF_SIZE {
        return Err(DnsError::EndOfBuffer);
    }
    match write_head(buffer, domain, 1, ttl, 4) {
        Ok(()) => {},
        Err(e) => return Err(e),
    }
    let ghost b1 = buffer.bytes();
    let _ = buffer.write_u32(addr);
    proof { lemma_splice_chain(a, b1, buffer.bytes(), p, rr_head(domain@, 1, ttl, 4), u32_bytes(addr)); }
    Ok(())
}

/// Writes an IPv6 address record.
fn write_aaaa(buffer: &mut BytePacketBuffer, domain: &[u8], addr: &[u16; 8], ttl: u32) -> (r: Result<(), DnsError>)
    requires
        old(buffer).wf(),
    ensures
        final(buffer).wf(),
        ({
            let w = record_bytes(RecordModel::Aaaa { domain: domain@, segments: addr@, ttl });
            &&& old(buffer).pos + w.len() > BUF_SIZE ==> r == Err::<(), DnsError>(DnsError::EndOfBuffer)
                && *final(buffer) == *old(buffer)
            &&& old(buffer).pos + w.len() <= BUF_SIZE ==> {
                &&& r.is_ok() == labels_fit(labels_of(domain@))
                &&& r.is_err() ==> r == Err::<(), DnsError>(DnsError::LabelTooLong)
                &&& r.is_ok() ==> spliced(old(buffer).bytes(), final(buffer).bytes(), old(buffer).pos as int, w)
                    && final(buffer).pos == old(buffer).pos + w.len()
            }
        }),
{
    let ghost a = buffer.bytes();
    let ghost p = buffer.pos as int;
    proof {
        lemma_wire_len(domain@, 0);
        lemma_segs_len(addr@, 8);
    }
    if domain.len() > BUF_SIZE || buffer.pos + domain.len() + 28 > BUF_SIZE {
        return Err(DnsError::EndOfBuffer);
    }
    match write_head(buffer, domain, 28, ttl, 16) {
        Ok(()) => {},
        Err(e) => return Err(e),
    }
    let ghost b1 = buffer.bytes();
    write_segs(buffer, addr);
    proof { lemma_splice_chain(a, b1, buffer.bytes(), p, rr_head(domain@, 28, ttl, 16), segs_bytes(addr@)); }
    Ok(())
}

/// The wire form of the first `n` groups is two bytes per group.
proof fn lemma_segs_len(a: Seq<u16>, n: int)
    requires
        n >= 1,
    ensures
        segs_prefix(a, n).len() == 2 * n,
    decreases n,
{
    if n > 1 {
        lemma_segs_len(a, n - 1);
    }
}

/// The record model of a name-valued record of type `code`.
pub open spec fn named_model(code: u16, domain: Seq<u8>, host: Seq<u8>, priority: Option<u16>, ttl: u32) -> RecordModel {
    if code == 2 {
        RecordModel::Ns { domain, host, ttl }
    } else if code == 5 {
        RecordModel::Cname { domain, host, ttl }
    } else {
        RecordModel::Mx { domain, host, priority: priority.unwrap(), ttl }
    }
}

/// Writes a record whose data ends in a name: a name server, an alias, or
/// (with a priority) a mail exchanger.
fn write_named(buffer: &mut BytePacketBuffer, code: u16, domain: &[u8], host: &[u8], priority: &Option<u16>, ttl: u32) -> (r: Result<(), DnsError>)
    requires
        old(buffer).wf(),
        code == 2 || code == 5 || code == 15,
        code == 15 <==> priority.is_some(),
    ensures
        final(buffer).wf(),
        ({
            let m = named_model(code, domain@, host@, *priority, ttl);
            let w = record_bytes(m);
            &&& old(buffer).pos + w.len() > BUF_SIZE ==> r == Err::<(), DnsError>(DnsError::EndOfBuffer)
                && *final(buffer) == *old(buffer)
            &&& old(buffer).pos + w.len() <= BUF_SIZE ==> {
                &&& r.is_ok() == record_names_fit(m)
                &&& r.is_err() ==> r == Err::<(), DnsError>(DnsError::LabelTooLong)
                &&& r.is_ok() ==> spliced(old(buffer).bytes(), final(buffer).bytes(), old(buffer).pos as int, w)
                    && final(buffer).pos == old(buffer).pos + w.len()
            }
        }),
{
    let ghost a = buffer.bytes();
    let ghost p = buffer.pos as int;
    proof {
        lemma_wire_len(domain@, 0);
        lemma_wire_len(host@, 0);
    }
    let extra: usize = if priority.is_some() { 2 } else { 0 };
    if domain.len() > BUF_SIZE || host.len() > BUF_SIZE
        || buffer.pos + domain.len() + host.len() + 14 + extra > BUF_SIZE {
        return Err(DnsError::EndOfBuffer);
    }
    match write_head(buffer, domain, code, ttl, 0) {
        Ok(()) => {},
        Err(e) => return Err(e),
    }
    let ghost head = rr_head(domain@, code, ttl, 0);
    proof {
        lemma_rr_head_patch(domain@, code, ttl);
    }
    match write_name_payload(buffer, host, priority, Ghost(a), Ghost(p), Ghost(head)) {
        Ok(()) => {},
        Err(e) => return Err(e),
    }
    proof {
        let m = named_model(code, domain@, host@, *priority, ttl);
        let data = match *priority {
            Some(pr) => u16_bytes(pr) + wire_name(host@),
            None => wire_name(host@),
        };
        assert(head.take(head.len() - 2) + u16_bytes(data.len() as u16) + data =~= record_bytes(m));
    }
    Ok(())
}

/// The data length sits in the last two bytes of a record head.
proof fn lemma_rr_head_patch(domain: Seq<u8>, code: u16, ttl: u32)
    ensures
        forall|v: u16| {
            let h = rr_head(domain, code, ttl, 0);
            &&& h.len() >= 2
            &&& h.skip(h.len() - 2) == u16_bytes(0)
            &&& #[trigger] rr_head(domain, code, ttl, v) == h.take(h.len() - 2) + u16_bytes(v)
        },
{
    let h = rr_head(domain, code, ttl, 0);
    assert(h.skip(h.len() - 2) =~= u16_bytes(0));
    assert forall|v: u16| #[trigger] rr_head(domain, code, ttl, v) == h.take(h.len() - 2) + u16_bytes(v) by {
        assert(rr_head(domain, code, ttl, v) =~= h.take(h.len() - 2) + u16_bytes(v));
    }
}

/// Writes the part of a record before its data: owner name, type, class 1,
/// ttl and data length. The caller has checked that it fits.
fn write_head(buffer: &mut BytePacketBuffer, domain: &[u8], code: u16, ttl: u32, len: u16) -> (r: Result<(), DnsError>)
    requires
        old(buffer).wf(),
        old(buffer).pos + domain@.len() + 12 <= BUF_SIZE,
    ensures
        final(buffer).wf(),
        r.is_ok() == labels_fit(labels_of(domain@)),
        r.is_err() ==> r == Err::<(), DnsError>(DnsError::LabelTooLong),
        r.is_ok() ==> spliced(old(buffer).bytes(), final(buffer).bytes(), old(buffer).pos as int, rr_head(domain@, code, ttl, len))
            && final(buffer).pos == old(buffer).pos + domain@.len() + 12,
{
    let ghost a = buffer.bytes();
    let ghost p = buffer.pos as int;
    match buffer.write_qname(domain) {
        Ok(()) => {},
        Err(e) => return Err(e),
    }
    let ghost w0 = wire_name(domain@);
    let ghost b1 = buffer.bytes();
    let _ = buffer.write_u16(code);
    proof { lemma_splice_chain(a, b1, buffer.bytes(), p, w0, u16_bytes(code)); }
    let ghost w1 = w0 + u16_bytes(code);
    let ghost b2 = buffer.bytes();
    let _ = buffer.write_u16(1);
    proof { lemma_splice_chain(a, b2, buffer.bytes(), p, w1, u16_bytes(1)); }
    let ghost w2 = w1 + u16_bytes(1);
    let ghost b3 = buffer.bytes();
    let _ = buffer.write_u32(ttl);
    proof { lemma_splice_chain(a, b3, buffer.bytes(), p, w2, u32_bytes(ttl)); }
    let ghost w3 = w2 + u32_bytes(ttl);
    let ghost b4 = buffer.bytes();
    let _ = buffer.write_u16(len);
    proof { lemma_splice_chain(a, b4, buffer.bytes(), p, w3, u16_bytes(len)); }
    Ok(())
}

/// Writes the eight groups of an IPv6 address. The caller has checked that they fit.
fn write_segs(buffer: &mut BytePacketBuffer, addr: &[u16; 8])
    requires
        old(buffer).wf(),
        old(buffer).pos + 16 <= BUF_SIZE,
    ensures
        final(buffer).wf(),
        spliced(old(buffer).bytes(), final(buffer).bytes(), old(buffer).pos as int, segs_bytes(addr@)),
        final(buffer).pos == old(buffer).pos + 16,
{
    let ghost a = buffer.bytes();
    let ghost p = buffer.pos as int;
    let ghost mut w: Seq<u8> = seq![];
    assert(a =~= a.take(p) + w + a.skip(p));
    let mut i: usize = 0;
    while i < 8
        invariant
            buffer.wf(),
            0 <= i <= 8,
            p + 16 <= BUF_SIZE,
            buffer.pos == p + 2 * i,
            w.len() == 2 * i,
            spliced(a, buffer.bytes(), p, w),
            forall|k: int| 0 <= k < 8 ==> addr@[k] == addr[k],
            i == 0 ==> w == Seq::<u8>::empty(),
            i >= 1 ==> w == segs_prefix(addr@, i as int),
        decreases 8 - i,
    {
        let ghost b = buffer.bytes();
        let _ = buffer.write_u16(addr[i]);
        proof {
            lemma_splice_chain(a, b, buffer.bytes(), p, w, u16_bytes(addr@[i as int]));
            w = w + u16_bytes(addr@[i as int]);
            if i == 0 {
                assert(w =~= segs_prefix(addr@, 1));
            }
        }
        i = i + 1;
    }
}

/// The wire form of the first `n` groups of `a`, for `n >= 1`.
pub open spec fn segs_prefix(a: Seq<u16>, n: int) -> Seq<u8>
    decreases n,
{
    if n <= 1 {
        u16_bytes(a[0])
    } else {
        segs_prefix(a, n - 1) + u16_bytes(a[n - 1])
    }
}

/// Writes the data of a record whose data ends in a name (with a 16-bit
/// priority before it when one is given), then patches the data length field,
/// which sits in the two bytes before the data, with the number of bytes
/// written. `head` is what was written from `p` up to here, ending in a zero
/// data length.
fn write_name_payload(
    buffer: &mut BytePacketBuffer,
    host: &[u8],
    priority: &Option<u16>,
    Ghost(a): Ghost<Seq<u8>>,
    Ghost(p): Ghost<int>,
    Ghost(head): Ghost<Seq<u8>>,
) -> (r: Result<(), DnsError>)
    requires
        old(buffer).wf(),
        spliced(a, old(buffer).bytes(), p, head),
        head.len() >= 2,
        head.skip(head.len() - 2) == u16_bytes(0),
        old(buffer).pos == p + head.len(),
        old(buffer).pos + host@.len() + 2 + (if priority.is_some() { 2int } else { 0 }) <= BUF_SIZE,
    ensures
        final(buffer).wf(),
        r.is_ok() == labels_fit(labels_of(host@)),
        r.is_err() ==> r == Err::<(), DnsError>(DnsError::LabelTooLong),
        r.is_ok() ==> {
            let data = match *priority {
                Some(pr) => u16_bytes(pr) + wire_name(host@),
                None => wire_name(host@),
            };
            spliced(a, final(buffer).bytes(), p,
                head.take(head.len() - 2) + u16_bytes(data.len() as u16) + data)
                && final(buffer).pos == old(buffer).pos + data.len()
        },
{
    let ghost b0 = buffer.bytes();
    let start_position = buffer.pos;
    let ghost mut data: Seq<u8> = seq![];
    match priority {
        Some(pr) => {
            let _ = buffer.write_u16(*pr);
            proof {
                lemma_splice_chain(a, b0, buffer.bytes(), p, head, u16_bytes(*pr));
                data = u16_bytes(*pr);
            }
        },
        None => {
            assert(head + data =~= head);
        },
    }
    let ghost b1 = buffer.bytes();
    match buffer.write_qname(host) {
        Ok(()) => {},
        Err(e) => return Err(e),
    }
    proof {
        lemma_splice_chain(a, b1, buffer.bytes(), p, head + data, wire_name(host@));
        assert(head + data + wire_name(host@) =~= head + (data + wire_name(host@)));
        data = data + wire_name(host@);
    }
    let size = buffer.pos - start_position;
    let ghost b2 = buffer.bytes();
    let _ = buffer.set_u16(start_position - 2, size as u16);
    proof {
        let pre = head.take(head.len() - 2);
        assert(head =~= pre + u16_bytes(0));
        assert(buffer.bytes() =~= a.take(p) + (pre + u16_bytes(size as u16) + data) + a.skip(p + head.len() + data.len()));
    }
    Ok(())
}

/// A record that can be written and read back: not `UNKNOWN`, with
/// well-formed lower-case names and eight groups to an IPv6 address.
pub open spec fn valid_record(r: RecordModel) -> bool {
    match r {
        RecordModel::Unknown { .. } => false,
        RecordModel::A { domain, .. } => valid_name(domain),
        RecordModel::Ns { domain, host, .. } => valid_name(domain) && valid_name(host),
        RecordModel::Cname { domain, host, .. } => valid_name(domain) && valid_name(host),
        RecordModel::Mx { domain, host, .. } => valid_name(domain) && valid_name(host),
        RecordModel::Aaaa { domain, segments, .. } => valid_name(domain) && segments.len() == 8,
    }
}

/// The owner name of a record.
pub open spec fn record_domain(r: RecordModel) -> Seq<u8> {
    match r {
        RecordModel::Unknown { domain, .. } => domain,
        RecordModel::A { domain, .. } => domain,
        RecordModel::Ns { domain, .. } => domain,
        RecordModel::Cname { domain, .. } => domain,
        RecordModel::Mx { domain, .. } => domain,
        RecordModel::Aaaa { domain, .. } => domain,
    }
}

/// A 32-bit word read back from its four bytes.
proof fn lemma_be32_round_trip(v: u32)
    ensures
        u32_bytes(v).len() == 4,
        be32(u32_bytes(v)[0], u32_bytes(v)[1], u32_bytes(v)[2], u32_bytes(v)[3]) == v,
{
    let hi = (v / 65536) as u16;
    let lo = (v % 65536) as u16;
    assert(be16(u16_bytes(hi)[0], u16_bytes(hi)[1]) == hi);
    assert(be16(u16_bytes(lo)[0], u16_bytes(lo)[1]) == lo);
}

/// Where the bytes at `p` are `w`, the byte at `p + i` is `w[i]`, and a
/// stretch of them is the matching stretch of `w`.
proof fn lemma_window(b: Seq<u8>, p: int, w: Seq<u8>)
    requires
        0 <= p,
        p + w.len() <= b.len(),
        b.subrange(p, p + w.len()) == w,
    ensures
        forall|i: int| 0 <= i < w.len() ==> b[p + i] == #[trigger] w[i],
        forall|i: int, j: int| 0 <= i <= j <= w.len() ==> #[trigger] b.subrange(p + i, p + j) == w.subrange(i, j),
{
    assert forall|i: int| 0 <= i < w.len() implies b[p + i] == #[trigger] w[i] by {
        assert(b.subrange(p, p + w.len())[i] == b[p + i]);
    }
    assert forall|i: int, j: int| 0 <= i <= j <= w.len() implies #[trigger] b.subrange(p + i, p + j) == w.subrange(i, j) by {
        assert(b.subrange(p + i, p + j) =~= w.subrange(i, j));
    }
}

/// The groups of an IPv6 address sit two bytes each, in order.
proof fn lemma_segs_index(a: Seq<u16>, n: int)
    requires
        1 <= n,
    ensures
        segs_prefix(a, n).len() == 2 * n,
        forall|i: int| 0 <= i < n ==> segs_prefix(a, n)[2 * i] == #[trigger] u16_bytes(a[i])[0]
            && segs_prefix(a, n)[2 * i + 1] == u16_bytes(a[i])[1],
    decreases n,
{
    lemma_segs_len(a, n);
    if n > 1 {
        lemma_segs_index(a, n - 1);
        lemma_segs_len(a, n - 1);
    }
}

/// Reading the head of a written record gives back its owner name, type, ttl
/// and data length, with the data right after it.
proof fn lemma_head_round_trip(b: Seq<u8>, p: int, d: Seq<u8>, code: u16, ttl: u32, len: u16, rest: Seq<u8>)
    requires
        valid_name(d),
        b.len() == 512,
        0 <= p,
        p + (rr_head(d, code, ttl, len) + rest).len() <= 512,
        b.subrange(p, p + (rr_head(d, code, ttl, len) + rest).len()) == rr_head(d, code, ttl, len) + rest,
    ensures
        rr_head(d, code, ttl, len).len() == d.len() + 12,
        name_at(b, p) == Ok::<(Seq<u8>, int), DnsError>((d, p + d.len() + 2)),
        u16_at(b, p + d.len() + 2) == code,
        u32_at(b, p + d.len() + 6) == ttl,
        u16_at(b, p + d.len() + 10) == len,
        b.subrange(p + d.len() + 12, p + d.len() + 12 + rest.len()) == rest,
{
    let w = rr_head(d, code, ttl, len) + rest;
    lemma_wire_len(d, 0);
    let dl = d.len() as int;
    lemma_window(b, p, w);
    assert(b.subrange(p + 0, p + dl + 2) == w.subrange(0, dl + 2));
    assert(w.subrange(0, dl + 2) =~= wire_name(d));
    lemma_name_round_trip(d, b, p);
    lemma_be16_round_trip(code);
    lemma_be16_round_trip(len);
    lemma_be32_round_trip(ttl);
    let mid = u16_bytes(code) + u16_bytes(1) + u32_bytes(ttl) + u16_bytes(len);
    assert(w =~= wire_name(d) + mid + rest);
    assert(b[p + dl + 2] == w[dl + 2]);
    assert(b[p + dl + 3] == w[dl + 3]);
    assert(b[p + dl + 6] == w[dl + 6]);
    assert(b[p + dl + 7] == w[dl + 7]);
    assert(b[p + dl + 8] == w[dl + 8]);
    assert(b[p + dl + 9] == w[dl + 9]);
    assert(b[p + dl + 10] == w[dl + 10]);
    assert(b[p + dl + 11] == w[dl + 11]);
    assert(b.subrange(p + (dl + 12), p + (dl + 12 + rest.len())) == w.subrange(dl + 12, dl + 12 + rest.len()));
    assert(w.subrange(dl + 12, dl + 12 + rest.len()) =~= rest);
}

/// Writing a record and reading it back gives the same record, and reading
/// resumes right after it: for every record but `UNKNOWN`, with well-formed
/// lower-case names.
pub proof fn lemma_record_round_trip(r: RecordModel, b: Seq<u8>, p: int)
    requires
        valid_record(r),
        b.len() == 512,
        0 <= p,
        p + record_bytes(r).len() <= 512,
        b.subrange(p, p + record_bytes(r).len()) == record_bytes(r),
    ensures
        record_at(b, p) == Ok::<(RecordModel, int), DnsError>((r, p + record_bytes(r).len())),
{
    match r {
        RecordModel::A { domain, addr, ttl } => {
            lemma_head_round_trip(b, p, domain, 1, ttl, 4, u32_bytes(addr));
            lemma_be32_round_trip(addr);
            let p2 = p + domain.len() + 12;
            lemma_window(b, p2, u32_bytes(addr));
            assert(u32_at(b, p2) == addr);
        },
        RecordModel::Aaaa { domain, segments, ttl } => {
            lemma_head_round_trip(b, p, domain, 28, ttl, 16, segs_bytes(segments));
            lemma_segs_index(segments, 8);
            let p2 = p + domain.len() + 12;
            lemma_window(b, p2, segs_bytes(segments));
            assert(segs_at(b, p2) =~= segments) by {
                assert forall|i: int| 0 <= i < 8 implies #[trigger] segs_at(b, p2)[i] == segments[i] by {
                    lemma_be16_round_trip(segments[i]);
                    assert(b[p2 + 2 * i] == segs_bytes(segments)[2 * i]);
                    assert(b[p2 + (2 * i + 1)] == segs_bytes(segments)[2 * i + 1]);
                }
            }
        },
        RecordModel::Ns { domain, host, ttl } => {
            lemma_wire_len(host, 0);
            lemma_head_round_trip(b, p, domain, 2, ttl, wire_name(host).len() as u16, wire_name(host));
            lemma_name_round_trip(host, b, p + domain.len() + 12);
        },
        RecordModel::Cname { domain, host, ttl } => {
            lemma_wire_len(host, 0);
            lemma_head_round_trip(b, p, domain, 5, ttl, wire_name(host).len() as u16, wire_name(host));
            lemma_name_round_trip(host, b, p + domain.len() + 12);
        },
        RecordModel::Mx { domain, host, priority, ttl } => {
            lemma_wire_len(host, 0);
            let data = u16_bytes(priority) + wire_name(host);
            assert(record_bytes(r) =~= rr_head(domain, 15, ttl, (wire_name(host).len() + 2) as u16) + data);
            lemma_head_round_trip(b, p, domain, 15, ttl, (wire_name(host).len() + 2) as u16, data);
            let p2 = p + domain.len() + 12;
            lemma_window(b, p2, data);
            lemma_be16_round_trip(priority);
            assert(b[p2 + 0] == data[0]);
            assert(b[p2 + 1] == data[1]);
            assert(u16_at(b, p2) == priority);
            assert(b.subrange(p2 + 2, p2 + data.len()) == data.subrange(2, data.len() as int));
            assert(data.subrange(2, data.len() as int) =~= wire_name(host));
            lemma_name_round_trip(host, b, p2 + 2);
        },
        RecordModel::Unknown { .. } => {},
    }
}

} // verus!