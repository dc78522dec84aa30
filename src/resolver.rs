//! The resolver's decisions: building the query for a name, and turning the
//! transport's outcome into addresses or an error. The socket work itself is
//! done by the caller between `prepare` and `complete`.
use vstd::prelude::*;
use crate::error::{codec_to_resolve, transport_to_resolve, ResolveError, TransportError};
use crate::name::{parse_domain, split_dots, valid_name, DomainName};
use crate::wire::{
    decode, encode, message_bytes, parse_message, Flags, Message, MessageModel, Query, QueryModel,
    RecordModel, ResourceRecord, CLASS_IN, OPCODE_QUERY, RCODE_OK, TYPE_A,
};

verus! {

/// One lookup in flight: the transaction id that the reply must echo, the
/// server to ask and how long to wait for it.
#[derive(Debug, Clone, Copy)]
pub struct ResolverRequest {
    pub id: u16,
    pub server: [u8; 4],
    pub port: u16,
    pub timeout_secs: u64,
}

pub const DNS_PORT: u16 = 53;

pub const DEFAULT_TIMEOUT_SECS: u64 = 3;

/// Flags of a standard query that asks for recursion.
pub open spec fn query_flags() -> Flags {
    Flags {
        qr: false,
        opcode: OPCODE_QUERY,
        aa: false,
        tc: false,
        rd: true,
        ra: false,
        rcode: RCODE_OK,
    }
}

/// The query message for an A lookup of `name`.
pub open spec fn query_model(name: Seq<Seq<u8>>, id: u16) -> MessageModel {
    MessageModel {
        id,
        flags: query_flags(),
        questions: seq![QueryModel { name, qtype: TYPE_A, qclass: CLASS_IN }],
        answers: seq![],
        authority: seq![],
        additional: seq![],
    }
}

/// The addresses in a list of records: the data of each type A record of
/// four bytes, in order. Records of other types are passed over.
pub open spec fn addresses(rs: Seq<RecordModel>) -> Seq<Seq<u8>>
    decreases rs.len(),
{
    if rs.len() == 0 {
        seq![]
    } else {
        let rest = addresses(rs.drop_last());
        let r = rs.last();
        if r.rtype == TYPE_A && r.rdata.len() == 4 {
            rest.push(r.rdata)
        } else {
            rest
        }
    }
}

/// What a reply to the request with id `id` amounts to.
pub open spec fn reply_outcome(id: u16, reply: Seq<u8>) -> Result<Seq<Seq<u8>>, ResolveError> {
    match parse_message(reply) {
        Err(e) => Err(codec_to_resolve(e)),
        Ok(m) => if m.id != id {
            Err(ResolveError::IdMismatch)
        } else if addresses(m.answers).len() == 0 && m.flags.rcode != RCODE_OK {
            Err(ResolveError::ServerError(m.flags.rcode))
        } else {
            Ok(addresses(m.answers))
        },
    }
}

pub open spec fn addrs_view(v: Seq<[u8; 4]>) -> Seq<Seq<u8>> {
    v.map_values(|a: [u8; 4]| a@)
}

/// Relies on `rand::random::<u16>`: any 16-bit value may come back.
#[verifier::external_body]
fn random_id() -> (r: u16) {
    rand::random::<u16>()
}

/// The query message for an A lookup of `name` with transaction id `id`.
pub fn build_query(name: DomainName, id: u16) -> (m: Message)
    ensures
        m@ == query_model(name@, id),
{
    let flags = Flags {
        qr: false,
        opcode: OPCODE_QUERY,
        aa: false,
        tc: false,
        rd: true,
        ra: false,
        rcode: RCODE_OK,
    };
    let mut questions: Vec<Query> = Vec::new();
    questions.push(Query { name, qtype: TYPE_A, qclass: CLASS_IN });
    let m = Message {
        id,
        flags,
        questions,
        answers: Vec::new(),
        authority: Vec::new(),
        additional: Vec::new(),
    };
    assert(m@.questions =~= query_model(name@, id).questions);
    assert(m@.answers =~= seq![]);
    assert(m@.authority =~= seq![]);
    assert(m@.additional =~= seq![]);
    m
}

/// The wire form of the A query for the dotted name `domain` with
/// transaction id `id`, or `InvalidName` when the name breaks the label rules.
pub fn query_for(domain: &[u8], id: u16) -> (r: Result<Vec<u8>, ResolveError>)
    ensures
        r is Ok <==> valid_name(split_dots(domain@)),
        r matches Ok(b) ==> b@ == message_bytes(query_model(split_dots(domain@), id)),
        r is Err ==> r == Err::<Vec<u8>, ResolveError>(ResolveError::InvalidName),
{
    let name = match parse_domain(domain) {
        Ok(n) => n,
        Err(_) => return Err(ResolveError::InvalidName),
    };
    let m = build_query(name, id);
    proof {
        assert(m@.questions[0].name == split_dots(domain@));
    }
    match encode(&m) {
        Ok(b) => Ok(b),
        Err(_) => Err(ResolveError::InvalidName),
    }
}

/// Starts a lookup: draws a fresh transaction id and encodes the query.
pub fn prepare(domain: &[u8], server: [u8; 4], port: u16, timeout_secs: u64) -> (r: Result<
    (ResolverRequest, Vec<u8>),
    ResolveError,
>)
    ensures
        r is Ok <==> valid_name(split_dots(domain@)),
        r matches Ok((req, b)) ==> req.server == server && req.port == port && req.timeout_secs
            == timeout_secs && b@ == message_bytes(query_model(split_dots(domain@), req.id)),
        r is Err ==> r == Err::<(ResolverRequest, Vec<u8>), ResolveError>(
            ResolveError::InvalidName,
        ),
{
    let id = random_id();
    let bytes = query_for(domain, id)?;
    Ok((ResolverRequest { id, server, port, timeout_secs }, bytes))
}

/// The IPv4 addresses among `rs`, in order.
pub fn a_records(rs: &Vec<ResourceRecord>) -> (r: Vec<[u8; 4]>)
    ensures
        addrs_view(r@) == addresses(rs@.map_values(|x: ResourceRecord| x@)),
{
    let ghost v = rs@.map_values(|x: ResourceRecord| x@);
    let mut out: Vec<[u8; 4]> = Vec::new();
    let mut i: usize = 0;
    while i < rs.len()
        invariant
            i <= rs.len(),
            v == rs@.map_values(|x: ResourceRecord| x@),
            addrs_view(out@) == addresses(v.take(i as int)),
        decreases rs.len() - i,
    {
        let rr = &rs[i];
        assert(v.take(i + 1).drop_last() =~= v.take(i as int));
        if rr.rtype == TYPE_A && rr.rdata.len() == 4 {
            let a: [u8; 4] = [rr.rdata[0], rr.rdata[1], rr.rdata[2], rr.rdata[3]];
            assert(a@ =~= rr.rdata@);
            out.push(a);
            assert(addrs_view(out@) =~= addresses(v.take(i as int)).push(rr.rdata@));
        }
        i = i + 1;
    }
    assert(v.take(i as int) =~= v);
    out
}

/// Reads the reply to the request with id `request_id`: its A answers, in
/// order. A reply with another id is discarded as `IdMismatch`; one with no
/// address and a failing response code gives `ServerError`.
pub fn interpret(request_id: u16, reply: &[u8]) -> (r: Result<Vec<[u8; 4]>, ResolveError>)
    ensures
        match r {
            Ok(v) => reply_outcome(request_id, reply@) == Ok::<_, ResolveError>(addrs_view(v@)),
            Err(e) => reply_outcome(request_id, reply@) == Err::<Seq<Seq<u8>>, _>(e),
        },
        parse_message(reply@) matches Ok(m) && m.id != request_id ==> r == Err::<
            Vec<[u8; 4]>,
            ResolveError,
        >(ResolveError::IdMismatch),
{
    let m = match decode(reply) {
        Ok(m) => m,
        Err(e) => return Err(e.to_resolve()),
    };
    if m.id != request_id {
        return Err(ResolveError::IdMismatch);
    }
    let addrs = a_records(&m.answers);
    if addrs.len() == 0 && m.flags.rcode != RCODE_OK {
        return Err(ResolveError::ServerError(m.flags.rcode));
    }
    Ok(addrs)
}

/// What the lookup `request` yields once the transport has delivered a reply
/// or failed.
pub fn complete(request: &ResolverRequest, outcome: Result<Vec<u8>, TransportError>) -> (r: Result<
    Vec<[u8; 4]>,
    ResolveError,
>)
    ensures
        match outcome {
            Err(t) => r == Err::<Vec<[u8; 4]>, ResolveError>(transport_to_resolve(t)),
            Ok(b) => match r {
                Ok(v) => reply_outcome(request.id, b@) == Ok::<_, ResolveError>(addrs_view(v@)),
                Err(e) => reply_outcome(request.id, b@) == Err::<Seq<Seq<u8>>, _>(e),
            },
        },
{
    match outcome {
        Err(t) => Err(t.to_resolve()),
        Ok(b) => interpret(request.id, b.as_slice()),
    }
}

} // verus!
