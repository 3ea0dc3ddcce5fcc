//! The question section entry: a name and a record type.
use vstd::prelude::*;
use crate::buffer::{BytePacketBuffer, BUF_SIZE, u16_at, u16_bytes, name_at, wire_name, labels_of, labels_fit,
    spliced, lemma_splice_chain};
use crate::error::DnsError;
use crate::record_type::{RecordType, type_code, type_of_code};

verus! {

/// One question: the name asked about and the record type wanted. The class
/// is always Internet and is not kept.
#[derive(Debug, Clone, PartialEq, Eq)]
pub struct DnsQuestions {
    pub name: Vec<u8>,
    pub qtype: RecordType,
}

/// The wire form of a question: name, type, class 1.
pub open spec fn question_bytes(name: Seq<u8>, qtype: RecordType) -> Seq<u8> {
    wire_name(name) + u16_bytes(type_code(qtype)) + u16_bytes(1)
}

/// Reads a question at `p`: its name, type, and where reading resumes past
/// the class, which is read and not kept. Type and class must both fit.
pub open spec fn question_at(b: Seq<u8>, p: int) -> Result<(Seq<u8>, RecordType, int), DnsError> {
    match name_at(b, p) {
        Err(e) => Err(e),
        Ok((name, p1)) => if p1 + 4 > 512 {
            Err(DnsError::EndOfBuffer)
        } else {
            Ok((name, type_of_code(u16_at(b, p1)), p1 + 4))
        },
    }
}

impl DnsQuestions {
    /// A question for `name` and `qtype`.
    pub fn new(name: Vec<u8>, qtype: RecordType) -> (r: DnsQuestions)
        ensures
            r.name@ == name@,
            r.qtype == qtype,
    {
        DnsQuestions { name, qtype }
    }

    /// Reads a question at the cursor, appending its name to `self.name`.
    pub fn read(&mut self, buffer: &mut BytePacketBuffer) -> (r: Result<(), DnsError>)
        requires
            old(buffer).wf(),
        ensures
            final(buffer).wf(),
            final(buffer).buf == old(buffer).buf,
            match question_at(old(buffer).bytes(), old(buffer).pos as int) {
                Ok((name, qtype, end)) => r.is_ok() && final(buffer).pos == end
                    && final(self).name@ == old(self).name@ + name && final(self).qtype == qtype,
                Err(e) => r == Err::<(), DnsError>(e),
            },
    {
        match buffer.read_qname(&mut self.name) {
            Ok(()) => {},
            Err(e) => return Err(e),
        }
        if buffer.pos > BUF_SIZE - 4 {
            return Err(DnsError::EndOfBuffer);
        }
        let t = match buffer.read_u16() {
            Ok(v) => v,
            Err(e) => return Err(e),
        };
        self.qtype = RecordType::from_num(t);
        match buffer.read_u16() {
            Ok(_) => {},
            Err(e) => return Err(e),
        }
        Ok(())
    }

    /// Writes this question at the cursor. Fails with `EndOfBuffer`, writing
    /// nothing, unless it fits; else with `LabelTooLong` if a label of the name
    /// is over 63 bytes.
    pub fn write(&self, buffer: &mut BytePacketBuffer) -> (r: Result<(), DnsError>)
        requires
            old(buffer).wf(),
        ensures
            final(buffer).wf(),
            question_bytes(self.name@, self.qtype).len() == self.name@.len() + 6,
            old(buffer).pos + self.name@.len() + 6 > BUF_SIZE ==> r == Err::<(), DnsError>(DnsError::EndOfBuffer)
                && *final(buffer) == *old(buffer),
            old(buffer).pos + self.name@.len() + 6 <= BUF_SIZE ==> {
                &&& r.is_ok() == labels_fit(labels_of(self.name@))
                &&& r.is_err() ==> r == Err::<(), DnsError>(DnsError::LabelTooLong)
                &&& r.is_ok() ==> spliced(old(buffer).bytes(), final(buffer).bytes(), old(buffer).pos as int,
                    question_bytes(self.name@, self.qtype))
                    && final(buffer).pos == old(buffer).pos + self.name@.len() + 6
            },
    {
        if self.name.len() > BUF_SIZE || buffer.pos + self.name.len() + 6 > BUF_SIZE {
            proof {
                crate::buffer::lemma_wire_len(self.name@, 0);
            }
            return Err(DnsError::EndOfBuffer);
        }
        let ghost a = buffer.bytes();
        let ghost p = buffer.pos as int;
        match buffer.write_qname(self.name.as_slice()) {
            Ok(()) => {},
            Err(e) => return Err(e),
        }
        let ghost w = wire_name(self.name@);
        let ghost b1 = buffer.bytes();
        let _ = buffer.write_u16(self.qtype.to_num());
        proof {
            lemma_splice_chain(a, b1, buffer.bytes(), p, w, u16_bytes(type_code(self.qtype)));
        }
        let ghost b2 = buffer.bytes();
        let _ = buffer.write_u16(1);
        proof {
            lemma_splice_chain(a, b2, buffer.bytes(), p, w + u16_bytes(type_code(self.qtype)), u16_bytes(1));
        }
        Ok(())
    }
}

} // verus!
