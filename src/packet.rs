//! A whole DNS message: header, questions and three record sections.
use vstd::prelude::*;
use crate::buffer::{BytePacketBuffer, BUF_SIZE, spliced, lemma_splice_chain};
use crate::error::DnsError;
use crate::header::{DnsHeader, HEADER_LEN, header_bytes, header_from};
use crate::question::{DnsQuestions, question_bytes, question_at};
use crate::record::{DnsRecord, RecordModel, record_at, record_bytes, record_names_fit, valid_record,
    lemma_record_round_trip};
use crate::record_type::{RecordType, type_code};
use crate::buffer::{labels_fit, labels_of};

verus! {

/// A question as plain values: the name and the record type.
pub type QuestionModel = (Seq<u8>, RecordType);

/// A message as plain values.
pub struct PacketModel {
    pub header: DnsHeader,
    pub questions: Seq<QuestionModel>,
    pub answers: Seq<RecordModel>,
    pub authorities: Seq<RecordModel>,
    pub resources: Seq<RecordModel>,
}

/// A DNS message.
#[derive(Debug, Clone)]
pub struct DnsPacket {
    pub header: DnsHeader,
    pub questions: Vec<DnsQuestions>,
    pub answers: Vec<DnsRecord>,
    pub authorities: Vec<DnsRecord>,
    pub resources: Vec<DnsRecord>,
}

/// The plain values of a list of questions.
pub open spec fn questions_view(qs: Seq<DnsQuestions>) -> Seq<QuestionModel> {
    qs.map_values(|q: DnsQuestions| (q.name@, q.qtype))
}

/// The plain values of a list of records.
pub open spec fn records_view(rs: Seq<DnsRecord>) -> Seq<RecordModel> {
    rs.map_values(|r: DnsRecord| r@)
}

impl View for DnsPacket {
    type V = PacketModel;

    open spec fn view(&self) -> PacketModel {
        PacketModel {
            header: self.header,
            questions: questions_view(self.questions@),
            answers: records_view(self.answers@),
            authorities: records_view(self.authorities@),
            resources: records_view(self.resources@),
        }
    }
}

/// The byte strings of a list, one after another.
pub open spec fn concat_all(ws: Seq<Seq<u8>>) -> Seq<u8>
    decreases ws.len(),
{
    if ws.len() == 0 {
        seq![]
    } else {
        concat_all(ws.drop_last()) + ws.last()
    }
}

/// The wire form of a question list.
pub open spec fn questions_bytes(qs: Seq<QuestionModel>) -> Seq<u8> {
    concat_all(qs.map_values(|q: QuestionModel| question_bytes(q.0, q.1)))
}

/// The wire form of a record list; unknown records leave nothing.
pub open spec fn records_bytes(rs: Seq<RecordModel>) -> Seq<u8> {
    concat_all(rs.map_values(|r: RecordModel| record_bytes(r)))
}

/// Every label of every question name fits the length field.
pub open spec fn questions_fit(qs: Seq<QuestionModel>) -> bool {
    forall|i: int| 0 <= i < qs.len() ==> labels_fit(labels_of(#[trigger] qs[i].0))
}

/// Every label of every record name fits the length field.
pub open spec fn records_fit(rs: Seq<RecordModel>) -> bool {
    forall|i: int| 0 <= i < rs.len() ==> record_names_fit(#[trigger] rs[i])
}

/// The wire form of a message, with the header as it stands.
pub open spec fn packet_bytes(m: PacketModel) -> Seq<u8> {
    header_bytes(m.header) + questions_bytes(m.questions) + records_bytes(m.answers)
        + records_bytes(m.authorities) + records_bytes(m.resources)
}

/// Every name of a message can be written.
pub open spec fn packet_fits(m: PacketModel) -> bool {
    questions_fit(m.questions) && records_fit(m.answers) && records_fit(m.authorities) && records_fit(m.resources)
}

/// How many records of `rs` are written out: all but the unknown ones.
pub open spec fn written_count(rs: Seq<RecordModel>) -> nat
    decreases rs.len(),
{
    if rs.len() == 0 {
        0
    } else {
        written_count(rs.drop_last()) + if rs.last() is Unknown {
            0nat
        } else {
            1nat
        }
    }
}

/// The header of `m` with its four counts set to how many questions and
/// records of each section are written out, cut to 16 bits.
pub open spec fn with_counts(m: PacketModel) -> DnsHeader {
    DnsHeader {
        questions: m.questions.len() as u16,
        answers: written_count(m.answers) as u16,
        authoritative_entries: written_count(m.authorities) as u16,
        resource_entries: written_count(m.resources) as u16,
        ..m.header
    }
}

/// How many records of `recs` are written out.
fn count_written(recs: &Vec<DnsRecord>) -> (n: usize)
    ensures
        n == written_count(records_view(recs@)),
{
    let ghost v = records_view(recs@);
    let mut n: usize = 0;
    let mut i: usize = 0;
    while i < recs.len()
        invariant
            v == records_view(recs@),
            i <= recs@.len(),
            n <= i,
            n == written_count(v.take(i as int)),
        decreases recs@.len() - i,
    {
        proof {
            assert(v.take(i + 1).drop_last() =~= v.take(i as int));
            assert(v.take(i + 1).last() == recs@[i as int]@);
        }
        match &recs[i] {
            DnsRecord::UNKNOWN { .. } => {},
            _ => {
                n = n + 1;
            },
        }
        i = i + 1;
    }
    assert(v.take(i as int) =~= v);
    n
}

/// Reads `n` questions from `p` on.
pub open spec fn questions_at(b: Seq<u8>, p: int, n: nat) -> Result<(Seq<QuestionModel>, int), DnsError>
    decreases n,
{
    if n == 0 {
        Ok((seq![], p))
    } else {
        match questions_at(b, p, (n - 1) as nat) {
            Err(e) => Err(e),
            Ok((qs, q)) => match question_at(b, q) {
                Err(e) => Err(e),
                Ok((name, t, end)) => Ok((qs.push((name, t)), end)),
            },
        }
    }
}

/// The records of `rs` that are written out, in order: all but the unknown ones.
pub open spec fn written_records(rs: Seq<RecordModel>) -> Seq<RecordModel>
    decreases rs.len(),
{
    if rs.len() == 0 {
        seq![]
    } else if rs.last() is Unknown {
        written_records(rs.drop_last())
    } else {
        written_records(rs.drop_last()).push(rs.last())
    }
}

/// Reading back a written record section, with as many records as were
/// counted, gives the records that were written (the unknown ones are gone)
/// and ends right after the section: for records that are unknown or have
/// well-formed lower-case names.
pub proof fn lemma_records_read_back(rs: Seq<RecordModel>, b: Seq<u8>, p: int)
    requires
        forall|i: int| 0 <= i < rs.len() ==> (#[trigger] rs[i] is Unknown) || valid_record(rs[i]),
        b.len() == 512,
        0 <= p,
        p + records_bytes(rs).len() <= 512,
        b.subrange(p, p + records_bytes(rs).len()) == records_bytes(rs),
    ensures
        written_count(rs) == written_records(rs).len(),
        records_at(b, p, written_count(rs)) == Ok::<(Seq<RecordModel>, int), DnsError>(
            (written_records(rs), p + records_bytes(rs).len())),
    decreases rs.len(),
{
    if rs.len() > 0 {
        let init = rs.drop_last();
        let last = rs.last();
        let f = |r: RecordModel| record_bytes(r);
        assert(rs.map_values(f).drop_last() =~= init.map_values(f));
        assert(records_bytes(rs) == records_bytes(init) + record_bytes(last));
        let l0 = records_bytes(init).len();
        let l1 = records_bytes(rs).len();
        assert(b.subrange(p, p + l0) =~= records_bytes(init)) by {
            assert forall|k: int| 0 <= k < l0 implies #[trigger] b.subrange(p, p + l0)[k] == records_bytes(init)[k] by {
                assert(b.subrange(p, p + l1)[k] == b[p + k]);
            }
        }
        assert forall|i: int| 0 <= i < init.len() implies (#[trigger] init[i] is Unknown) || valid_record(init[i]) by {
            assert(init[i] == rs[i]);
        }
        lemma_records_read_back(init, b, p);
        if !(last is Unknown) {
            assert(b.subrange(p + l0, p + l1) =~= record_bytes(last)) by {
                assert forall|k: int| 0 <= k < l1 - l0 implies #[trigger] b.subrange(p + l0, p + l1)[k] == record_bytes(last)[k] by {
                    assert(b.subrange(p, p + l1)[l0 + k] == b[p + l0 + k]);
                }
            }
            assert(rs[rs.len() - 1] == last);
            lemma_record_round_trip(last, b, p + l0);
        } else {
            assert(record_bytes(last) == Seq::<u8>::empty());
        }
    }
}

/// Reads `n` records from `p` on.
pub open spec fn records_at(b: Seq<u8>, p: int, n: nat) -> Result<(Seq<RecordModel>, int), DnsError>
    decreases n,
{
    if n == 0 {
        Ok((seq![], p))
    } else {
        match records_at(b, p, (n - 1) as nat) {
            Err(e) => Err(e),
            Ok((rs, q)) => match record_at(b, q) {
                Err(e) => Err(e),
                Ok((r, end)) => Ok((rs.push(r), end)),
            },
        }
    }
}

/// Reads a message at `p`: the header, then as many questions, answers,
/// authority and additional records as its counts say, in that order.
pub open spec fn packet_at(b: Seq<u8>, p: int) -> Result<PacketModel, DnsError> {
    if p + 12 > 512 {
        Err(DnsError::EndOfBuffer)
    } else {
        let h = header_from(b.subrange(p, p + 12));
        match questions_at(b, p + 12, h.questions as nat) {
            Err(e) => Err(e),
            Ok((qs, p1)) => match records_at(b, p1, h.answers as nat) {
                Err(e) => Err(e),
                Ok((an, p2)) => match records_at(b, p2, h.authoritative_entries as nat) {
                    Err(e) => Err(e),
                    Ok((au, p3)) => match records_at(b, p3, h.resource_entries as nat) {
                        Err(e) => Err(e),
                        Ok((re, _)) => Ok(PacketModel {
                            header: h,
                            questions: qs,
                            answers: an,
                            authorities: au,
                            resources: re,
                        }),
                    },
                },
            },
        }
    }
}

/// Reads `n` records at the cursor into `out`.
fn read_records(buffer: &mut BytePacketBuffer, n: u16, out: &mut Vec<DnsRecord>) -> (r: Result<(), DnsError>)
    requires
        old(buffer).wf(),
        old(out)@.len() == 0,
    ensures
        final(buffer).wf(),
        final(buffer).buf == old(buffer).buf,
        match records_at(old(buffer).bytes(), old(buffer).pos as int, n as nat) {
            Ok((rs, end)) => r.is_ok() && records_view(final(out)@) == rs && final(buffer).pos == end,
            Err(e) => r == Err::<(), DnsError>(e),
        },
{
    let ghost b = buffer.bytes();
    let ghost p0 = buffer.pos as int;
    let mut i: u16 = 0;
    assert(records_view(out@) =~= Seq::<RecordModel>::empty());
    while i < n
        invariant
            buffer.wf(),
            buffer.buf == old(buffer).buf,
            b == old(buffer).bytes(),
            p0 == old(buffer).pos,
            i <= n,
            records_at(b, p0, i as nat) == Ok::<(Seq<RecordModel>, int), DnsError>((records_view(out@), buffer.pos as int)),
        decreases n - i,
    {
        let ghost before = out@;
        let rec = match DnsRecord::read(buffer) {
            Ok(v) => v,
            Err(e) => {
                proof { assert(records_at(b, p0, (i + 1) as nat) == Err::<(Seq<RecordModel>, int), DnsError>(e)); }
                proof { lemma_records_err(b, p0, (i + 1) as nat, n as nat); }
                return Err(e);
            },
        };
        out.push(rec);
        assert(records_view(out@) =~= records_view(before).push(rec@));
        i = i + 1;
    }
    Ok(())
}

/// Once reading fails, reading more fails the same way.
proof fn lemma_records_err(b: Seq<u8>, p: int, i: nat, n: nat)
    requires
        i <= n,
        records_at(b, p, i).is_err(),
    ensures
        records_at(b, p, n) == records_at(b, p, i),
    decreases n - i,
{
    if i < n {
        lemma_records_err(b, p, i, (n - 1) as nat);
    }
}

/// Once reading fails, reading more fails the same way.
proof fn lemma_questions_err(b: Seq<u8>, p: int, i: nat, n: nat)
    requires
        i <= n,
        questions_at(b, p, i).is_err(),
    ensures
        questions_at(b, p, n) == questions_at(b, p, i),
    decreases n - i,
{
    if i < n {
        lemma_questions_err(b, p, i, (n - 1) as nat);
    }
}

/// Reads `n` questions at the cursor into `out`.
fn read_questions(buffer: &mut BytePacketBuffer, n: u16, out: &mut Vec<DnsQuestions>) -> (r: Result<(), DnsError>)
    requires
        old(buffer).wf(),
        old(out)@.len() == 0,
    ensures
        final(buffer).wf(),
        final(buffer).buf == old(buffer).buf,
        match questions_at(old(buffer).bytes(), old(buffer).pos as int, n as nat) {
            Ok((qs, end)) => r.is_ok() && questions_view(final(out)@) == qs && final(buffer).pos == end,
            Err(e) => r == Err::<(), DnsError>(e),
        },
{
    let ghost b = buffer.bytes();
    let ghost p0 = buffer.pos as int;
    let mut i: u16 = 0;
    assert(questions_view(out@) =~= Seq::<QuestionModel>::empty());
    while i < n
        invariant
            buffer.wf(),
            buffer.buf == old(buffer).buf,
            b == old(buffer).bytes(),
            p0 == old(buffer).pos,
            i <= n,
            questions_at(b, p0, i as nat) == Ok::<(Seq<QuestionModel>, int), DnsError>((questions_view(out@), buffer.pos as int)),
        decreases n - i,
    {
        let ghost before = out@;
        let mut question = DnsQuestions::new(Vec::new(), RecordType::UNKNOWN(0));
        assert(question.name@ =~= Seq::<u8>::empty());
        match question.read(buffer) {
            Ok(()) => {},
            Err(e) => {
                proof { lemma_questions_err(b, p0, (i + 1) as nat, n as nat); }
                return Err(e);
            },
        }
        assert(question.name@ =~= Seq::<u8>::empty() + question.name@);
        out.push(question);
        assert(questions_view(out@) =~= questions_view(before).push((question.name@, question.qtype)));
        i = i + 1;
    }
    Ok(())
}

/// The length of what the first `i` parts make never exceeds that of the first `j`.
proof fn lemma_concat_mono(ws: Seq<Seq<u8>>, i: int, j: int)
    requires
        0 <= i <= j <= ws.len(),
    ensures
        concat_all(ws.take(i)).len() <= concat_all(ws.take(j)).len(),
    decreases j - i,
{
    if i < j {
        lemma_concat_mono(ws, i, j - 1);
        assert(ws.take(j).drop_last() =~= ws.take(j - 1));
    }
}

/// Writes `recs` one after another at the cursor.
fn write_records(buffer: &mut BytePacketBuffer, recs: &Vec<DnsRecord>) -> (r: Result<(), DnsError>)
    requires
        old(buffer).wf(),
    ensures
        final(buffer).wf(),
        ({
            let w = records_bytes(records_view(recs@));
            &&& r.is_ok() ==> records_fit(records_view(recs@))
                && spliced(old(buffer).bytes(), final(buffer).bytes(), old(buffer).pos as int, w)
                && final(buffer).pos == old(buffer).pos + w.len()
            &&& r == Err::<(), DnsError>(DnsError::EndOfBuffer) ==> old(buffer).pos + w.len() > BUF_SIZE
            &&& r == Err::<(), DnsError>(DnsError::LabelTooLong) ==> !records_fit(records_view(recs@))
            &&& r.is_err() ==> r == Err::<(), DnsError>(DnsError::EndOfBuffer) || r == Err::<(), DnsError>(DnsError::LabelTooLong)
        }),
{
    let ghost a = buffer.bytes();
    let ghost p = buffer.pos as int;
    let ghost rs = records_view(recs@);
    let ghost ws = rs.map_values(|r: RecordModel| record_bytes(r));
    let mut i: usize = 0;
    proof {
        assert(ws.take(0) =~= Seq::<Seq<u8>>::empty());
        assert(a =~= a.take(p) + concat_all(ws.take(0)) + a.skip(p));
    }
    while i < recs.len()
        invariant
            buffer.wf(),
            a == old(buffer).bytes(),
            p == old(buffer).pos,
            rs == records_view(recs@),
            ws == rs.map_values(|r: RecordModel| record_bytes(r)),
            i <= recs@.len(),
            spliced(a, buffer.bytes(), p, concat_all(ws.take(i as int))),
            buffer.pos == p + concat_all(ws.take(i as int)).len(),
            forall|k: int| 0 <= k < i ==> record_names_fit(#[trigger] rs[k]),
        decreases recs@.len() - i,
    {
        let ghost b = buffer.bytes();
        let res = recs[i].write(buffer);
        proof {
            assert(rs[i as int] == recs@[i as int]@);
            assert(ws.take(i + 1).drop_last() =~= ws.take(i as int));
            assert(ws.take(i + 1).last() == record_bytes(rs[i as int]));
        }
        match res {
            Ok(_) => {},
            Err(e) => {
                proof {
                    if e == DnsError::EndOfBuffer {
                        lemma_concat_mono(ws, i + 1, ws.len() as int);
                        assert(ws.take(ws.len() as int) =~= ws);
                    }
                }
                return Err(e);
            },
        }
        proof {
            lemma_splice_chain(a, b, buffer.bytes(), p, concat_all(ws.take(i as int)), record_bytes(rs[i as int]));
        }
        i = i + 1;
    }
    assert(ws.take(i as int) =~= ws);
    Ok(())
}

/// Writes `qs` one after another at the cursor.
fn write_questions(buffer: &mut BytePacketBuffer, qs: &Vec<DnsQuestions>) -> (r: Result<(), DnsError>)
    requires
        old(buffer).wf(),
    ensures
        final(buffer).wf(),
        ({
            let w = questions_bytes(questions_view(qs@));
            &&& r.is_ok() ==> questions_fit(questions_view(qs@))
                && spliced(old(buffer).bytes(), final(buffer).bytes(), old(buffer).pos as int, w)
                && final(buffer).pos == old(buffer).pos + w.len()
            &&& r == Err::<(), DnsError>(DnsError::EndOfBuffer) ==> old(buffer).pos + w.len() > BUF_SIZE
            &&& r == Err::<(), DnsError>(DnsError::LabelTooLong) ==> !questions_fit(questions_view(qs@))
            &&& r.is_err() ==> r == Err::<(), DnsError>(DnsError::EndOfBuffer) || r == Err::<(), DnsError>(DnsError::LabelTooLong)
        }),
{
    let ghost a = buffer.bytes();
    let ghost p = buffer.pos as int;
    let ghost ms = questions_view(qs@);
    let ghost ws = ms.map_values(|q: QuestionModel| question_bytes(q.0, q.1));
    let mut i: usize = 0;
    proof {
        assert(ws.take(0) =~= Seq::<Seq<u8>>::empty());
        assert(a =~= a.take(p) + concat_all(ws.take(0)) + a.skip(p));
    }
    while i < qs.len()
        invariant
            buffer.wf(),
            a == old(buffer).bytes(),
            p == old(buffer).pos,
            ms == questions_view(qs@),
            ws == ms.map_values(|q: QuestionModel| question_bytes(q.0, q.1)),
            i <= qs@.len(),
            spliced(a, buffer.bytes(), p, concat_all(ws.take(i as int))),
            buffer.pos == p + concat_all(ws.take(i as int)).len(),
            forall|k: int| 0 <= k < i ==> labels_fit(labels_of(#[trigger] ms[k].0)),
        decreases qs@.len() - i,
    {
        let ghost b = buffer.bytes();
        let res = qs[i].write(buffer);
        proof {
            assert(ms[i as int] == (qs@[i as int].name@, qs@[i as int].qtype));
            assert(ws.take(i + 1).drop_last() =~= ws.take(i as int));
            assert(ws.take(i + 1).last() == question_bytes(ms[i as int].0, ms[i as int].1));
        }
        match res {
            Ok(_) => {},
            Err(e) => {
                proof {
                    if e == DnsError::EndOfBuffer {
                        lemma_concat_mono(ws, i + 1, ws.len() as int);
                        assert(ws.take(ws.len() as int) =~= ws);
                    }
                }
                return Err(e);
            },
        }
        proof {
            lemma_splice_chain(a, b, buffer.bytes(), p, concat_all(ws.take(i as int)), question_bytes(ms[i as int].0, ms[i as int].1));
        }
        i = i + 1;
    }
    assert(ws.take(i as int) =~= ws);
    Ok(())
}

/// `s` ends with `suffix`.
pub open spec fn ends_with(s: Seq<u8>, suffix: Seq<u8>) -> bool {
    suffix.len() <= s.len() && s.subrange(s.len() - suffix.len(), s.len() as int) == suffix
}

/// The address of the first address record of `rs`.
pub open spec fn first_a(rs: Seq<RecordModel>) -> Option<u32>
    decreases rs.len(),
{
    if rs.len() == 0 {
        None
    } else {
        match rs[0] {
            RecordModel::A { addr, .. } => Some(addr),
            _ => first_a(rs.drop_first()),
        }
    }
}

/// The address of the first address record of `rs` owned by `host`.
pub open spec fn glue_for(rs: Seq<RecordModel>, host: Seq<u8>) -> Option<u32>
    decreases rs.len(),
{
    if rs.len() == 0 {
        None
    } else {
        match rs[0] {
            RecordModel::A { domain, addr, .. } => if domain == host {
                Some(addr)
            } else {
                glue_for(rs.drop_first(), host)
            },
            _ => glue_for(rs.drop_first(), host),
        }
    }
}

/// The name server that `r` names for `qname`, if it is a name-server record
/// whose owner is a suffix of `qname`.
pub open spec fn ns_for(r: RecordModel, qname: Seq<u8>) -> Option<Seq<u8>> {
    match r {
        RecordModel::Ns { domain, host, .. } => if ends_with(qname, domain) {
            Some(host)
        } else {
            None
        },
        _ => None,
    }
}

/// The first name server for `qname` among `auth`.
pub open spec fn first_ns(auth: Seq<RecordModel>, qname: Seq<u8>) -> Option<Seq<u8>>
    decreases auth.len(),
{
    if auth.len() == 0 {
        None
    } else {
        match ns_for(auth[0], qname) {
            Some(h) => Some(h),
            None => first_ns(auth.drop_first(), qname),
        }
    }
}

/// Going through the name servers for `qname` among `auth` in order, the first
/// address found for one of them among `res`.
pub open spec fn resolved_ns(auth: Seq<RecordModel>, res: Seq<RecordModel>, qname: Seq<u8>) -> Option<u32>
    decreases auth.len(),
{
    if auth.len() == 0 {
        None
    } else {
        match ns_for(auth[0], qname) {
            Some(h) => match glue_for(res, h) {
                Some(a) => Some(a),
                None => resolved_ns(auth.drop_first(), res, qname),
            },
            None => resolved_ns(auth.drop_first(), res, qname),
        }
    }
}

/// Whether two byte strings are equal.
fn bytes_eq(a: &[u8], b: &[u8]) -> (r: bool)
    ensures
        r == (a@ == b@),
{
    if a.len() != b.len() {
        return false;
    }
    let mut i: usize = 0;
    while i < a.len()
        invariant
            a@.len() == b@.len(),
            i <= a@.len(),
            a@.take(i as int) == b@.take(i as int),
        decreases a@.len() - i,
    {
        if a[i] != b[i] {
            assert(a@[i as int] != b@[i as int]);
            return false;
        }
        assert(a@.take(i + 1) =~= a@.take(i as int).push(a@[i as int]));
        assert(b@.take(i + 1) =~= b@.take(i as int).push(b@[i as int]));
        i = i + 1;
    }
    assert(a@ =~= a@.take(i as int));
    assert(b@ =~= b@.take(i as int));
    true
}

/// Whether `s` ends with `suffix`.
fn bytes_end_with(s: &[u8], suffix: &[u8]) -> (r: bool)
    ensures
        r == ends_with(s@, suffix@),
{
    if suffix.len() > s.len() {
        return false;
    }
    let start = s.len() - suffix.len();
    let tail = vstd::slice::slice_subrange(s, start, s.len());
    bytes_eq(tail, suffix)
}

/// The name server that `r` names for `qname`, as in `ns_for`.
fn ns_host<'a>(r: &'a DnsRecord, qname: &[u8]) -> (h: Option<&'a [u8]>)
    ensures
        match ns_for(r@, qname@) {
            Some(x) => h.is_some() && h.unwrap()@ == x,
            None => h.is_none(),
        },
{
    match r {
        DnsRecord::NS { domain, host, .. } => {
            if bytes_end_with(qname, domain.as_slice()) {
                Some(host.as_slice())
            } else {
                None
            }
        },
        _ => None,
    }
}

/// The first address record of `rs` owned by `host`, as in `glue_for`.
fn find_glue(rs: &Vec<DnsRecord>, host: &[u8]) -> (r: Option<u32>)
    ensures
        r == glue_for(records_view(rs@), host@),
{
    let ghost v = records_view(rs@);
    let mut i: usize = 0;
    assert(v.skip(0) =~= v);
    while i < rs.len()
        invariant
            v == records_view(rs@),
            i <= rs@.len(),
            glue_for(v, host@) == glue_for(v.skip(i as int), host@),
        decreases rs@.len() - i,
    {
        let ghost rest = v.skip(i as int);
        assert(rest[0] == rs@[i as int]@);
        assert(rest.drop_first() =~= v.skip(i + 1));
        match &rs[i] {
            DnsRecord::A { domain, addr, .. } => {
                if bytes_eq(domain.as_slice(), host) {
                    return Some(*addr);
                }
            },
            _ => {},
        }
        i = i + 1;
    }
    assert(v.skip(i as int) =~= Seq::<RecordModel>::empty());
    None
}

impl DnsPacket {
    /// An empty message with a fresh header.
    pub fn new() -> (r: DnsPacket)
        ensures
            r.header == DnsHeader::new_spec(),
            r.questions@.len() == 0,
            r.answers@.len() == 0,
            r.authorities@.len() == 0,
            r.resources@.len() == 0,
    {
        DnsPacket {
            header: DnsHeader::new(),
            questions: Vec::new(),
            answers: Vec::new(),
            authorities: Vec::new(),
            resources: Vec::new(),
        }
    }

    /// Reads a whole message at the cursor. Any short read fails the whole message.
    pub fn from_buffer(buffer: &mut BytePacketBuffer) -> (r: Result<DnsPacket, DnsError>)
        requires
            old(buffer).wf(),
        ensures
            final(buffer).wf(),
            final(buffer).buf == old(buffer).buf,
            match packet_at(old(buffer).bytes(), old(buffer).pos as int) {
                Ok(m) => r.is_ok() && r.unwrap()@ == m,
                Err(e) => r == Err::<DnsPacket, DnsError>(e),
            },
    {
        let mut result = DnsPacket::new();
        match result.header.read(buffer) {
            Ok(()) => {},
            Err(e) => return Err(e),
        }
        match read_questions(buffer, result.header.questions, &mut result.questions) {
            Ok(()) => {},
            Err(e) => return Err(e),
        }
        match read_records(buffer, result.header.answers, &mut result.answers) {
            Ok(()) => {},
            Err(e) => return Err(e),
        }
        match read_records(buffer, result.header.authoritative_entries, &mut result.authorities) {
            Ok(()) => {},
            Err(e) => return Err(e),
        }
        match read_records(buffer, result.header.resource_entries, &mut result.resources) {
            Ok(()) => {},
            Err(e) => return Err(e),
        }
        Ok(result)
    }

    /// Sets the four header counts to how many questions and records of each
    /// section are written out, then writes the header, the questions and the
    /// three record sections at the cursor. Unknown records are neither written
    /// nor counted, so the counts always match what the output holds.
    pub fn write(&mut self, buffer: &mut BytePacketBuffer) -> (r: Result<(), DnsError>)
        requires
            old(buffer).wf(),
        ensures
            final(buffer).wf(),
            final(self).header == with_counts(old(self)@),
            final(self).questions == old(self).questions,
            final(self).answers == old(self).answers,
            final(self).authorities == old(self).authorities,
            final(self).resources == old(self).resources,
            ({
                let w = packet_bytes(final(self)@);
                &&& r.is_ok() <==> packet_fits(final(self)@) && old(buffer).pos + w.len() <= BUF_SIZE
                &&& r.is_ok() ==> spliced(old(buffer).bytes(), final(buffer).bytes(), old(buffer).pos as int, w)
                    && final(buffer).pos == old(buffer).pos + w.len()
                &&& r == Err::<(), DnsError>(DnsError::EndOfBuffer) ==> old(buffer).pos + w.len() > BUF_SIZE
                &&& r == Err::<(), DnsError>(DnsError::LabelTooLong) ==> !packet_fits(final(self)@)
                &&& r.is_err() ==> r == Err::<(), DnsError>(DnsError::EndOfBuffer) || r == Err::<(), DnsError>(DnsError::LabelTooLong)
            }),
    {
        self.header.questions = self.questions.len() as u16;
        self.header.answers = count_written(&self.answers) as u16;
        self.header.authoritative_entries = count_written(&self.authorities) as u16;
        self.header.resource_entries = count_written(&self.resources) as u16;
        let r = write_sections(buffer, &self.header, &self.questions, &self.answers, &self.authorities, &self.resources);
        assert(self@ == (PacketModel {
            header: self.header,
            questions: questions_view(self.questions@),
            answers: records_view(self.answers@),
            authorities: records_view(self.authorities@),
            resources: records_view(self.resources@),
        }));
        r
    }

    /// The address of the first address record among the answers.
    pub fn get_random_a(&self) -> (r: Option<u32>)
        ensures
            r == first_a(self@.answers),
    {
        let ghost v = self@.answers;
        let mut i: usize = 0;
        assert(v.skip(0) =~= v);
        while i < self.answers.len()
            invariant
                v == records_view(self.answers@),
                i <= self.answers@.len(),
                first_a(v) == first_a(v.skip(i as int)),
            decreases self.answers@.len() - i,
        {
            let ghost rest = v.skip(i as int);
            assert(rest[0] == self.answers@[i as int]@);
            assert(rest.drop_first() =~= v.skip(i + 1));
            match &self.answers[i] {
                DnsRecord::A { addr, .. } => {
                    return Some(*addr);
                },
                _ => {},
            }
            i = i + 1;
        }
        assert(v.skip(i as int) =~= Seq::<RecordModel>::empty());
        None
    }

    /// The address of a name server for `qname` that the additional section
    /// gives: the name servers among the authorities whose owner is a suffix
    /// of `qname` are tried in order, each against the additional address records.
    pub fn get_resolved_ns(&self, qname: &[u8]) -> (r: Option<u32>)
        ensures
            r == resolved_ns(self@.authorities, self@.resources, qname@),
    {
        let ghost v = self@.authorities;
        let mut i: usize = 0;
        assert(v.skip(0) =~= v);
        while i < self.authorities.len()
            invariant
                v == records_view(self.authorities@),
                i <= self.authorities@.len(),
                resolved_ns(v, self@.resources, qname@) == resolved_ns(v.skip(i as int), self@.resources, qname@),
            decreases self.authorities@.len() - i,
        {
            let ghost rest = v.skip(i as int);
            assert(rest[0] == self.authorities@[i as int]@);
            assert(rest.drop_first() =~= v.skip(i + 1));
            match ns_host(&self.authorities[i], qname) {
                Some(host) => {
                    match find_glue(&self.resources, host) {
                        Some(a) => {
                            return Some(a);
                        },
                        None => {},
                    }
                },
                None => {},
            }
            i = i + 1;
        }
        assert(v.skip(i as int) =~= Seq::<RecordModel>::empty());
        None
    }

    /// The first name server for `qname` among the authorities: the target of
    /// the first name-server record whose owner is a suffix of `qname`.
    pub fn get_unresolved_ns<'a>(&'a self, qname: &[u8]) -> (r: Option<&'a [u8]>)
        ensures
            match first_ns(self@.authorities, qname@) {
                Some(h) => r.is_some() && r.unwrap()@ == h,
                None => r.is_none(),
            },
    {
        let ghost v = self@.authorities;
        let mut i: usize = 0;
        assert(v.skip(0) =~= v);
        while i < self.authorities.len()
            invariant
                v == records_view(self.authorities@),
                i <= self.authorities@.len(),
                first_ns(v, qname@) == first_ns(v.skip(i as int), qname@),
            decreases self.authorities@.len() - i,
        {
            let ghost rest = v.skip(i as int);
            assert(rest[0] == self.authorities@[i as int]@);
            assert(rest.drop_first() =~= v.skip(i + 1));
            match ns_host(&self.authorities[i], qname) {
                Some(host) => {
                    return Some(host);
                },
                None => {},
            }
            i = i + 1;
        }
        assert(v.skip(i as int) =~= Seq::<RecordModel>::empty());
        None
    }
}

/// Writes a header and the four sections, one after another, at the cursor.
#[verifier::rlimit(80)]
fn write_sections(
    buffer: &mut BytePacketBuffer,
    header: &DnsHeader,
    qs: &Vec<DnsQuestions>,
    an: &Vec<DnsRecord>,
    au: &Vec<DnsRecord>,
    re: &Vec<DnsRecord>,
) -> (r: Result<(), DnsError>)
    requires
        old(buffer).wf(),
    ensures
        final(buffer).wf(),
        ({
            let m = PacketModel {
                header: *header,
                questions: questions_view(qs@),
                answers: records_view(an@),
                authorities: records_view(au@),
                resources: records_view(re@),
            };
            let w = packet_bytes(m);
            &&& r.is_ok() <==> packet_fits(m) && old(buffer).pos + w.len() <= BUF_SIZE
            &&& r.is_ok() ==> spliced(old(buffer).bytes(), final(buffer).bytes(), old(buffer).pos as int, w)
                && final(buffer).pos == old(buffer).pos + w.len()
            &&& r == Err::<(), DnsError>(DnsError::EndOfBuffer) ==> old(buffer).pos + w.len() > BUF_SIZE
            &&& r == Err::<(), DnsError>(DnsError::LabelTooLong) ==> !packet_fits(m)
            &&& r.is_err() ==> r == Err::<(), DnsError>(DnsError::EndOfBuffer) || r == Err::<(), DnsError>(DnsError::LabelTooLong)
        }),
{
    let ghost a = buffer.bytes();
    let ghost p = buffer.pos as int;
    let ghost w0 = header_bytes(*header);
    let ghost w1 = questions_bytes(questions_view(qs@));
    let ghost w2 = records_bytes(records_view(an@));
    let ghost w3 = records_bytes(records_view(au@));
    let ghost w4 = records_bytes(records_view(re@));
    match header.write(buffer) {
        Ok(()) => {},
        Err(e) => return Err(e),
    }
    let ghost b1 = buffer.bytes();
    match write_questions(buffer, qs) {
        Ok(()) => {},
        Err(e) => return Err(e),
    }
    proof { lemma_splice_chain(a, b1, buffer.bytes(), p, w0, w1); }
    let ghost b2 = buffer.bytes();
    match write_records(buffer, an) {
        Ok(()) => {},
        Err(e) => return Err(e),
    }
    proof { lemma_splice_chain(a, b2, buffer.bytes(), p, w0 + w1, w2); }
    let ghost b3 = buffer.bytes();
    match write_records(buffer, au) {
        Ok(()) => {},
        Err(e) => return Err(e),
    }
    proof { lemma_splice_chain(a, b3, buffer.bytes(), p, w0 + w1 + w2, w3); }
    let ghost b4 = buffer.bytes();
    match write_records(buffer, re) {
        Ok(()) => {},
        Err(e) => return Err(e),
    }
    proof { lemma_splice_chain(a, b4, buffer.bytes(), p, w0 + w1 + w2 + w3, w4); }
    Ok(())
}

} // verus!