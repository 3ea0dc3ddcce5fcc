//! The decisions of the delegation-following resolver and of the query
//! service. Sending and receiving datagrams is left to the caller, which
//! hands each upstream response to a `Lookup` and performs the step it returns.
use vstd::prelude::*;
use crate::buffer::{BytePacketBuffer, u16_at};
use crate::error::DnsError;
use crate::header::DnsHeader;
use crate::packet::{DnsPacket, first_a, first_ns, resolved_ns};
use crate::question::DnsQuestions;
use crate::record_type::{RecordType, ResultCode};

verus! {

/// 198.41.0.4, a.root-servers.net, where every lookup starts.
pub const ROOT_SERVER: u32 = 3324575748;

/// The port name servers listen on.
pub const UPSTREAM_PORT: u16 = 53;

/// The port the query service listens on.
pub const LISTEN_PORT: u16 = 2053;

/// Most servers one lookup asks before it gives up.
pub const MAX_HOPS: u32 = 20;

/// Most lookups nested inside one another to find a name server's address.
pub const MAX_DEPTH: u32 = 20;

/// The transaction id of outgoing queries.
pub const QUERY_ID: u16 = 1234;

/// One lookup of a name and type: the server to ask next, how many servers
/// were asked, and how deeply this lookup is nested in others.
pub struct Lookup {
    pub qname: Vec<u8>,
    pub qtype: RecordType,
    pub server: u32,
    pub hops: u32,
    pub depth: u32,
}

/// What the caller of a lookup does next.
pub enum Step {
    /// Send the query to this server and hand its response to `on_response`.
    Query(u32),
    /// The lookup is over with this response.
    Done(DnsPacket),
    /// Look up the address of this name server (as a nested lookup one level
    /// deeper), then hand its result and `pending` to `on_nested`.
    Resolve { host: Vec<u8>, pending: DnsPacket },
    /// Too many servers were asked: the lookup fails.
    GiveUp,
}

/// A response that ends a lookup: it has answers and no error, or it says the
/// name does not exist.
pub open spec fn is_final(p: DnsPacket) -> bool {
    (p.answers@.len() > 0 && p.header.rescode == ResultCode::NOERROR) || p.header.rescode == ResultCode::NXDOMAIN
}

impl Lookup {
    /// A lookup of `qname` and `qtype` that starts at the root server.
    pub fn start(qname: Vec<u8>, qtype: RecordType, depth: u32) -> (r: Lookup)
        ensures
            r.qname@ == qname@,
            r.qtype == qtype,
            r.server == ROOT_SERVER,
            r.hops == 0,
            r.depth == depth,
    {
        Lookup { qname, qtype, server: ROOT_SERVER, hops: 0, depth }
    }

    /// The nested lookup of the address of name server `host`, one level
    /// deeper than this one, starting at the root.
    pub fn nested(&self, host: Vec<u8>) -> (r: Lookup)
        requires
            self.depth < MAX_DEPTH,
        ensures
            r.qname@ == host@,
            r.qtype == RecordType::A,
            r.server == ROOT_SERVER,
            r.hops == 0,
            r.depth == self.depth + 1,
    {
        Lookup::start(host, RecordType::A, self.depth + 1)
    }

    /// Decides what follows a response from `self.server`. A final answer or
    /// a name-does-not-exist response ends the lookup as it is. Otherwise the
    /// name servers for the name among the authorities are tried: one whose
    /// address the additional section gives is asked next; failing that, the
    /// first one's address is looked up; with none, the response ends the
    /// lookup. Asking another server once `MAX_HOPS` were asked gives up; a
    /// nested lookup at depth `MAX_DEPTH` is not started and the response ends
    /// the lookup.
    pub fn on_response(&mut self, response: DnsPacket) -> (r: Step)
        ensures
            final(self).qname == old(self).qname,
            final(self).qtype == old(self).qtype,
            final(self).depth == old(self).depth,
            is_final(response) ==> r == Step::Done(response) && *final(self) == *old(self),
            !is_final(response) ==> match resolved_ns(response@.authorities, response@.resources, old(self).qname@) {
                Some(a) => if old(self).hops >= MAX_HOPS {
                    r == Step::GiveUp
                } else {
                    r == Step::Query(a) && final(self).server == a && final(self).hops == old(self).hops + 1
                },
                None => match first_ns(response@.authorities, old(self).qname@) {
                    Some(h) => if old(self).hops >= MAX_HOPS {
                        r == Step::GiveUp
                    } else if old(self).depth >= MAX_DEPTH {
                        r == Step::Done(response)
                    } else {
                        r matches Step::Resolve { host, pending } && host@ == h && pending == response
                            && final(self).hops == old(self).hops + 1
                    },
                    None => r == Step::Done(response),
                },
            },
    {
        if (response.answers.len() > 0 && response.header.rescode == ResultCode::NOERROR)
            || response.header.rescode == ResultCode::NXDOMAIN {
            return Step::Done(response);
        }
        match response.get_resolved_ns(self.qname.as_slice()) {
            Some(a) => {
                if self.hops >= MAX_HOPS {
                    return Step::GiveUp;
                }
                self.hops = self.hops + 1;
                self.server = a;
                return Step::Query(a);
            },
            None => {},
        }
        let host = match response.get_unresolved_ns(self.qname.as_slice()) {
            Some(h) => vstd::slice::slice_to_vec(h),
            None => {
                return Step::Done(response);
            },
        };
        if self.hops >= MAX_HOPS {
            return Step::GiveUp;
        }
        if self.depth >= MAX_DEPTH {
            return Step::Done(response);
        }
        self.hops = self.hops + 1;
        Step::Resolve { host, pending: response }
    }

    /// Decides what follows a nested lookup of a name server's address: the
    /// first address among its answers is asked next; if the nested lookup
    /// failed or gave no address, `pending` ends this lookup.
    pub fn on_nested(&mut self, nested: Option<DnsPacket>, pending: DnsPacket) -> (r: Step)
        ensures
            final(self).qname == old(self).qname,
            final(self).qtype == old(self).qtype,
            final(self).depth == old(self).depth,
            final(self).hops == old(self).hops,
            match nested {
                Some(p) => match first_a(p@.answers) {
                    Some(a) => r == Step::Query(a) && final(self).server == a,
                    None => r == Step::Done(pending),
                },
                None => r == Step::Done(pending),
            },
    {
        match nested {
            Some(p) => match p.get_random_a() {
                Some(a) => {
                    self.server = a;
                    Step::Query(a)
                },
                None => Step::Done(pending),
            },
            None => Step::Done(pending),
        }
    }
}

/// The query sent upstream for `qname` and `qtype`: id `QUERY_ID`, recursion
/// desired, and that one question.
pub fn build_query(qname: Vec<u8>, qtype: RecordType) -> (r: DnsPacket)
    ensures
        r.header == (DnsHeader { id: QUERY_ID, questions: 1, recursion_desired: true, ..DnsHeader::new_spec() }),
        r.questions@.len() == 1,
        r.questions@[0].name@ == qname@,
        r.questions@[0].qtype == qtype,
        r.answers@.len() == 0,
        r.authorities@.len() == 0,
        r.resources@.len() == 0,
{
    let mut packet = DnsPacket::new();
    packet.header.id = QUERY_ID;
    packet.header.questions = 1;
    packet.header.recursion_desired = true;
    packet.questions.push(DnsQuestions::new(qname, qtype));
    packet
}

/// What the service does with a request.
pub enum Incoming {
    /// Look up this question, then answer request `id` with `answer_response`.
    Resolve { id: u16, question: DnsQuestions },
    /// Send this response back at once.
    Reply(DnsPacket),
}

/// The header of a response to request `id`: a response, recursion desired
/// and available, with response code `code`.
pub open spec fn response_header(id: u16, code: ResultCode) -> DnsHeader {
    DnsHeader {
        id,
        response: true,
        recursion_desired: true,
        recursion_available: true,
        rescode: code,
        ..DnsHeader::new_spec()
    }
}

/// An empty response to request `id` with response code `code`.
fn empty_response(id: u16, code: ResultCode) -> (r: DnsPacket)
    ensures
        r.header == response_header(id, code),
        r.questions@.len() == 0,
        r.answers@.len() == 0,
        r.authorities@.len() == 0,
        r.resources@.len() == 0,
{
    let mut p = DnsPacket::new();
    p.header.id = id;
    p.header.recursion_desired = true;
    p.header.recursion_available = true;
    p.header.response = true;
    p.header.rescode = code;
    p
}

/// The transaction id in the first two bytes of a received datagram, readable
/// even when the rest of it does not decode.
pub fn raw_request_id(buffer: &BytePacketBuffer) -> (r: u16)
    ensures
        r == u16_at(buffer.bytes(), 0),
{
    (buffer.buf[0] as u16) * 256 + buffer.buf[1] as u16
}

/// Decides what to do with a request, given how it decoded and the id in its
/// first two bytes. One that did not decode, or has no question, gets a
/// format-error response with the request's id; otherwise its first question
/// is to be looked up.
pub fn handle_request(request: Result<DnsPacket, DnsError>, raw_id: u16) -> (r: Incoming)
    ensures
        match request {
            Err(_) => r matches Incoming::Reply(p) && p.header == response_header(raw_id, ResultCode::FORMERR)
                && p.questions@.len() == 0 && p.answers@.len() == 0 && p.authorities@.len() == 0
                && p.resources@.len() == 0,
            Ok(req) => if req.questions@.len() == 0 {
                r matches Incoming::Reply(p) && p.header == response_header(req.header.id, ResultCode::FORMERR)
                    && p.questions@.len() == 0 && p.answers@.len() == 0 && p.authorities@.len() == 0
                    && p.resources@.len() == 0
            } else {
                r matches Incoming::Resolve { id, question } && id == req.header.id
                    && question.name@ == req.questions@[0].name@ && question.qtype == req.questions@[0].qtype
            },
        },
{
    match request {
        Err(_) => Incoming::Reply(empty_response(raw_id, ResultCode::FORMERR)),
        Ok(mut req) => {
            if req.questions.len() == 0 {
                return Incoming::Reply(empty_response(req.header.id, ResultCode::FORMERR));
            }
            let id = req.header.id;
            let question = req.questions.remove(0);
            Incoming::Resolve { id, question }
        },
    }
}

/// The response to request `id` for `question`, given the lookup's outcome:
/// a failed lookup gives a server-failure response; otherwise the response
/// carries the question, and the response code and the three record sections
/// of the lookup's result.
pub fn answer_response(id: u16, question: DnsQuestions, result: Option<DnsPacket>) -> (r: DnsPacket)
    ensures
        match result {
            None => r.header == response_header(id, ResultCode::SERVFAIL) && r.questions@.len() == 0
                && r.answers@.len() == 0 && r.authorities@.len() == 0 && r.resources@.len() == 0,
            Some(res) => r.header == response_header(id, res.header.rescode)
                && r.questions@.len() == 1 && r.questions@[0].name@ == question.name@
                && r.questions@[0].qtype == question.qtype
                && r.answers@ == res.answers@ && r.authorities@ == res.authorities@
                && r.resources@ == res.resources@,
        },
{
    match result {
        None => empty_response(id, ResultCode::SERVFAIL),
        Some(res) => {
            let mut p = empty_response(id, res.header.rescode);
            p.questions.push(question);
            p.answers = res.answers;
            p.authorities = res.authorities;
            p.resources = res.resources;
            p
        },
    }
}

} // verus!
