//! The twelve-byte message header.
use vstd::prelude::*;
use crate::buffer::{BytePacketBuffer, BUF_SIZE, be16, u16_bytes, spliced, lemma_splice_chain};
use crate::error::DnsError;
use crate::record_type::{ResultCode, rescode_num, rescode_of_num};

verus! {

/// Size of the header on the wire.
pub const HEADER_LEN: usize = 12;

/// Identifier, flags, response code and the four section counts of a message.
#[derive(PartialEq, Eq, Structural, Debug, Clone, Copy)]
pub struct DnsHeader {
    pub id: u16,
    pub recursion_desired: bool,
    pub truncated_message: bool,
    pub authoritative_answer: bool,
    pub opcode: u8,
    pub response: bool,
    pub rescode: ResultCode,
    pub checking_disabled: bool,
    pub authed_data: bool,
    pub z: bool,
    pub recursion_available: bool,
    pub questions: u16,
    pub answers: u16,
    pub authoritative_entries: u16,
    pub resource_entries: u16,
}

/// `v` if `b`, else zero.
pub open spec fn flag(b: bool, v: int) -> int {
    if b {
        v
    } else {
        0
    }
}

/// Whether bit `k` (valued `w == 2^k`) of `b` is set.
pub open spec fn has_bit(b: u8, w: int) -> bool {
    (b as int / w) % 2 == 1
}

/// First flag byte: response, opcode (low four bits), authoritative, truncated, recursion desired.
pub open spec fn flags1(h: DnsHeader) -> u8 {
    (flag(h.response, 128) + (h.opcode % 16) as int * 8 + flag(h.authoritative_answer, 4)
        + flag(h.truncated_message, 2) + flag(h.recursion_desired, 1)) as u8
}

/// Second flag byte: recursion available, z, authenticated data, checking disabled, response code.
pub open spec fn flags2(h: DnsHeader) -> u8 {
    (flag(h.recursion_available, 128) + flag(h.z, 64) + flag(h.authed_data, 32)
        + flag(h.checking_disabled, 16) + rescode_num(h.rescode)) as u8
}

/// The wire form of a header.
pub open spec fn header_bytes(h: DnsHeader) -> Seq<u8> {
    u16_bytes(h.id) + seq![flags1(h), flags2(h)] + u16_bytes(h.questions) + u16_bytes(h.answers)
        + u16_bytes(h.authoritative_entries) + u16_bytes(h.resource_entries)
}

/// The header that twelve wire bytes hold.
pub open spec fn header_from(s: Seq<u8>) -> DnsHeader {
    DnsHeader {
        id: be16(s[0], s[1]) as u16,
        response: has_bit(s[2], 128),
        opcode: ((s[2] / 8) % 16) as u8,
        authoritative_answer: has_bit(s[2], 4),
        truncated_message: has_bit(s[2], 2),
        recursion_desired: has_bit(s[2], 1),
        recursion_available: has_bit(s[3], 128),
        z: has_bit(s[3], 64),
        authed_data: has_bit(s[3], 32),
        checking_disabled: has_bit(s[3], 16),
        rescode: rescode_of_num(s[3] % 16),
        questions: be16(s[4], s[5]) as u16,
        answers: be16(s[6], s[7]) as u16,
        authoritative_entries: be16(s[8], s[9]) as u16,
        resource_entries: be16(s[10], s[11]) as u16,
    }
}

impl DnsHeader {
    /// The header of a fresh message: id 0, every flag clear, `NOERROR` and zero counts.
    pub open spec fn new_spec() -> DnsHeader {
        DnsHeader {
                id: 0,
                recursion_desired: false,
                truncated_message: false,
                authoritative_answer: false,
                opcode: 0,
                response: false,
                rescode: ResultCode::NOERROR,
                checking_disabled: false,
                authed_data: false,
                z: false,
                recursion_available: false,
                questions: 0,
                answers: 0,
                authoritative_entries: 0,
                resource_entries: 0,
        }
    }

    /// A header with id 0, every flag clear, `NOERROR` and zero counts.
    pub fn new() -> (r: DnsHeader)
        ensures
            r == DnsHeader::new_spec(),
    {
        DnsHeader {
            id: 0,
            recursion_desired: false,
            truncated_message: false,
            authoritative_answer: false,
            opcode: 0,
            response: false,
            rescode: ResultCode::NOERROR,
            checking_disabled: false,
            authed_data: false,
            z: false,
            recursion_available: false,
            questions: 0,
            answers: 0,
            authoritative_entries: 0,
            resource_entries: 0,
        }
    }

    /// Reads a header at the cursor of `buffer` into `self`.
    pub fn read(&mut self, buffer: &mut BytePacketBuffer) -> (r: Result<(), DnsError>)
        requires
            old(buffer).wf(),
        ensures
            final(buffer).wf(),
            final(buffer).buf == old(buffer).buf,
            r.is_ok() == (old(buffer).pos + HEADER_LEN <= BUF_SIZE),
            r.is_ok() ==> *final(self) == header_from(old(buffer).bytes().subrange(old(buffer).pos as int, old(buffer).pos + 12))
                && final(buffer).pos == old(buffer).pos + HEADER_LEN,
            r.is_err() ==> r == Err::<(), DnsError>(DnsError::EndOfBuffer),
    {
        if buffer.pos > BUF_SIZE - HEADER_LEN {
            return Err(DnsError::EndOfBuffer);
        }
        let ghost s = buffer.bytes().subrange(buffer.pos as int, buffer.pos + 12);
        self.id = buffer.read_u16()?;
        let first_flags = match buffer.read() { Ok(v) => v, Err(e) => return Err(e) };
        self.response = first_flags >= 128;
        self.opcode = (first_flags / 8) % 16;
        self.authoritative_answer = (first_flags / 4) % 2 == 1;
        self.truncated_message = (first_flags / 2) % 2 == 1;
        self.recursion_desired = first_flags % 2 == 1;
        let second_flags = match buffer.read() { Ok(v) => v, Err(e) => return Err(e) };
        self.recursion_available = second_flags >= 128;
        self.z = (second_flags / 64) % 2 == 1;
        self.authed_data = (second_flags / 32) % 2 == 1;
        self.checking_disabled = (second_flags / 16) % 2 == 1;
        self.rescode = ResultCode::from_num(second_flags % 16);
        self.questions = match buffer.read_u16() { Ok(v) => v, Err(e) => return Err(e) };
        self.answers = match buffer.read_u16() { Ok(v) => v, Err(e) => return Err(e) };
        self.authoritative_entries = match buffer.read_u16() { Ok(v) => v, Err(e) => return Err(e) };
        self.resource_entries = match buffer.read_u16() { Ok(v) => v, Err(e) => return Err(e) };
        assert(*self == header_from(s));
        Ok(())
    }

    /// Writes this header at the cursor of `buffer`; fails, writing nothing,
    /// unless all twelve bytes fit. The opcode contributes its low four bits.
    pub fn write(&self, buffer: &mut BytePacketBuffer) -> (r: Result<(), DnsError>)
        requires
            old(buffer).wf(),
        ensures
            final(buffer).wf(),
            r.is_ok() == (old(buffer).pos + HEADER_LEN <= BUF_SIZE),
            r.is_ok() ==> spliced(old(buffer).bytes(), final(buffer).bytes(), old(buffer).pos as int, header_bytes(*self))
                && final(buffer).pos == old(buffer).pos + HEADER_LEN,
            r.is_err() ==> r == Err::<(), DnsError>(DnsError::EndOfBuffer) && *final(buffer) == *old(buffer),
    {
        if buffer.pos > BUF_SIZE - HEADER_LEN {
            return Err(DnsError::EndOfBuffer);
        }
        let first_flags = first_flag_byte(self);
        let second_flags = second_flag_byte(self);
        let ghost a = buffer.bytes();
        let ghost p = buffer.pos as int;
        let _ = buffer.write_u16(self.id);
        let ghost b1 = buffer.bytes();
        let _ = buffer.write(first_flags);
        proof {
            assert(buffer.bytes() =~= b1.take(p + 2) + seq![first_flags] + b1.skip(p + 3));
            lemma_splice_chain(a, b1, buffer.bytes(), p, u16_bytes(self.id), seq![first_flags]);
        }
        let ghost b2 = buffer.bytes();
        let _ = buffer.write(second_flags);
        proof {
            assert(buffer.bytes() =~= b2.take(p + 3) + seq![second_flags] + b2.skip(p + 4));
            lemma_splice_chain(a, b2, buffer.bytes(), p, u16_bytes(self.id) + seq![first_flags], seq![second_flags]);
        }
        let ghost w1 = u16_bytes(self.id) + seq![first_flags] + seq![second_flags];
        let ghost b3 = buffer.bytes();
        let _ = buffer.write_u16(self.questions);
        proof { lemma_splice_chain(a, b3, buffer.bytes(), p, w1, u16_bytes(self.questions)); }
        let ghost w2 = w1 + u16_bytes(self.questions);
        let ghost b4 = buffer.bytes();
        let _ = buffer.write_u16(self.answers);
        proof { lemma_splice_chain(a, b4, buffer.bytes(), p, w2, u16_bytes(self.answers)); }
        let ghost w3 = w2 + u16_bytes(self.answers);
        let ghost b5 = buffer.bytes();
        let _ = buffer.write_u16(self.authoritative_entries);
        proof { lemma_splice_chain(a, b5, buffer.bytes(), p, w3, u16_bytes(self.authoritative_entries)); }
        let ghost w4 = w3 + u16_bytes(self.authoritative_entries);
        let ghost b6 = buffer.bytes();
        let _ = buffer.write_u16(self.resource_entries);
        proof {
            lemma_splice_chain(a, b6, buffer.bytes(), p, w4, u16_bytes(self.resource_entries));
            assert(w4 + u16_bytes(self.resource_entries) =~= header_bytes(*self));
        }
        Ok(())
    }
}

/// Writing a header and reading it back gives the same header, provided its
/// opcode fits in four bits: each flag bit comes back on its own, unaffected by
/// the others.
pub proof fn lemma_header_round_trip(h: DnsHeader)
    requires
        h.opcode < 16,
    ensures
        header_bytes(h).len() == 12,
        header_from(header_bytes(h)) == h,
{
    let s = header_bytes(h);
    lemma_be16_round_trip(h.id);
    lemma_be16_round_trip(h.questions);
    lemma_be16_round_trip(h.answers);
    lemma_be16_round_trip(h.authoritative_entries);
    lemma_be16_round_trip(h.resource_entries);
    assert(s[0] == u16_bytes(h.id)[0] && s[1] == u16_bytes(h.id)[1]);
    assert(s[4] == u16_bytes(h.questions)[0] && s[5] == u16_bytes(h.questions)[1]);
    assert(s[6] == u16_bytes(h.answers)[0] && s[7] == u16_bytes(h.answers)[1]);
    assert(s[8] == u16_bytes(h.authoritative_entries)[0] && s[9] == u16_bytes(h.authoritative_entries)[1]);
    assert(s[10] == u16_bytes(h.resource_entries)[0] && s[11] == u16_bytes(h.resource_entries)[1]);
    assert(s[2] == flags1(h) && s[3] == flags2(h));
    let f1 = flags1(h) as int;
    let f2 = flags2(h) as int;
    let r = rescode_num(h.rescode) as int;
    assert(0 <= r < 6);
    assert(has_bit(flags1(h), 128) == h.response);
    assert(has_bit(flags1(h), 4) == h.authoritative_answer);
    assert(has_bit(flags1(h), 2) == h.truncated_message);
    assert(has_bit(flags1(h), 1) == h.recursion_desired);
    assert((f1 / 8) % 16 == h.opcode);
    assert(has_bit(flags2(h), 128) == h.recursion_available);
    assert(has_bit(flags2(h), 64) == h.z);
    assert(has_bit(flags2(h), 32) == h.authed_data);
    assert(has_bit(flags2(h), 16) == h.checking_disabled);
    assert(f2 % 16 == r);
    assert(rescode_of_num(rescode_num(h.rescode)) == h.rescode);
}

/// A 16-bit word read back from its two bytes.
pub proof fn lemma_be16_round_trip(v: u16)
    ensures
        u16_bytes(v).len() == 2,
        be16(u16_bytes(v)[0], u16_bytes(v)[1]) == v,
{
}

/// The first flag byte of `h`.
fn first_flag_byte(h: &DnsHeader) -> (r: u8)
    ensures
        r == flags1(*h),
{
    (if h.response { 128u8 } else { 0 }) + (h.opcode % 16) * 8
        + (if h.authoritative_answer { 4u8 } else { 0 })
        + (if h.truncated_message { 2u8 } else { 0 })
        + (if h.recursion_desired { 1u8 } else { 0 })
}

/// The second flag byte of `h`.
fn second_flag_byte(h: &DnsHeader) -> (r: u8)
    ensures
        r == flags2(*h),
{
    (if h.recursion_available { 128u8 } else { 0 })
        + (if h.z { 64u8 } else { 0 })
        + (if h.authed_data { 32u8 } else { 0 })
        + (if h.checking_disabled { 16u8 } else { 0 })
        + h.rescode.to_num()
}

} // verus!
