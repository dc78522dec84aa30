//! DNS messages: the header flag word, queries, resource records, and the
//! big-endian wire form of a whole message.
use vstd::prelude::*;
use vstd::slice::{slice_subrange, slice_to_vec};
use crate::error::CodecError;
use crate::name::{
    agrees, decode_name, encode_name, lemma_agrees_fits, lemma_agrees_split, lemma_name_round_trip,
    lemma_name_short, lemma_self_pointer_loops, name_bytes, read_name, valid_name, DomainName,
};

verus! {

/// The flag word of the header. Bit 15 is QR, bits 14..11 the opcode, bit 10
/// AA, bit 9 TC, bit 8 RD, bit 7 RA, bits 6..4 are reserved and sent as zero,
/// bits 3..0 the response code.
#[derive(Debug, Clone, Copy, PartialEq, Eq, Structural)]
pub struct Flags {
    /// Set in a response, clear in a query.
    pub qr: bool,
    pub opcode: u8,
    pub aa: bool,
    pub tc: bool,
    pub rd: bool,
    pub ra: bool,
    pub rcode: u8,
}

pub const RCODE_OK: u8 = 0;

pub const RCODE_NXDOMAIN: u8 = 3;

pub const OPCODE_QUERY: u8 = 0;

pub const TYPE_A: u16 = 1;

pub const CLASS_IN: u16 = 1;

pub const HEADER_LEN: usize = 12;

/// The opcode and the response code each fit their four bits.
pub open spec fn flags_ok(f: Flags) -> bool {
    f.opcode < 16 && f.rcode < 16
}

pub open spec fn bit(b: bool, mask: u16) -> u16 {
    if b {
        mask
    } else {
        0
    }
}

pub open spec fn flags_word(f: Flags) -> u16 {
    bit(f.qr, 0x8000) | ((f.opcode as u16) << 11u16) | bit(f.aa, 0x400) | bit(f.tc, 0x200) | bit(
        f.rd,
        0x100,
    ) | bit(f.ra, 0x80) | (f.rcode as u16)
}

pub open spec fn flags_of(w: u16) -> Flags {
    Flags {
        qr: w & 0x8000 != 0,
        opcode: ((w >> 11u16) & 0xF) as u8,
        aa: w & 0x400 != 0,
        tc: w & 0x200 != 0,
        rd: w & 0x100 != 0,
        ra: w & 0x80 != 0,
        rcode: (w & 0xF) as u8,
    }
}

/// Unpacking a packed flag word gives back the flags.
pub proof fn lemma_flags_round_trip(f: Flags)
    requires
        flags_ok(f),
    ensures
        flags_of(flags_word(f)) == f,
{
    let q = bit(f.qr, 0x8000);
    let a = bit(f.aa, 0x400);
    let t = bit(f.tc, 0x200);
    let d = bit(f.rd, 0x100);
    let c = bit(f.ra, 0x80);
    let o = f.opcode as u16;
    let r = f.rcode as u16;
    let w = flags_word(f);
    assert(w == q | (o << 11u16) | a | t | d | c | r);
    assert((q == 0 || q == 0x8000) && (a == 0 || a == 0x400) && (t == 0 || t == 0x200) && (d == 0
        || d == 0x100) && (c == 0 || c == 0x80) && o < 16 && r < 16 && w == q | (o << 11u16) | a | t
        | d | c | r ==> ((w & 0x8000 != 0) == (q == 0x8000)) && ((w >> 11u16) & 0xF) == o && ((w
        & 0x400 != 0) == (a == 0x400)) && ((w & 0x200 != 0) == (t == 0x200)) && ((w & 0x100 != 0)
        == (d == 0x100)) && ((w & 0x80 != 0) == (c == 0x80)) && (w & 0xF) == r) by (bit_vector);
}

/// Packs the flags into the header's flag word.
pub fn pack_flags(f: Flags) -> (w: u16)
    requires
        flags_ok(f),
    ensures
        w == flags_word(f),
{
    let q: u16 = if f.qr { 0x8000 } else { 0 };
    let a: u16 = if f.aa { 0x400 } else { 0 };
    let t: u16 = if f.tc { 0x200 } else { 0 };
    let d: u16 = if f.rd { 0x100 } else { 0 };
    let c: u16 = if f.ra { 0x80 } else { 0 };
    q | ((f.opcode as u16) << 11u16) | a | t | d | c | (f.rcode as u16)
}

/// Unpacks the header's flag word; the reserved bits are dropped.
pub fn unpack_flags(w: u16) -> (f: Flags)
    ensures
        f == flags_of(w),
        flags_ok(f),
{
    assert(((w >> 11u16) & 0xF) < 16 && (w & 0xF) < 16) by (bit_vector);
    Flags {
        qr: w & 0x8000 != 0,
        opcode: ((w >> 11u16) & 0xF) as u8,
        aa: w & 0x400 != 0,
        tc: w & 0x200 != 0,
        rd: w & 0x100 != 0,
        ra: w & 0x80 != 0,
        rcode: (w & 0xF) as u8,
    }
}

/// A question: the name asked about, the record type and the class.
#[derive(Debug)]
pub struct Query {
    pub name: DomainName,
    pub qtype: u16,
    pub qclass: u16,
}

/// A resource record. The data are kept as bytes whatever the type; only
/// type A data (four bytes, an IPv4 address) are read by the resolver.
#[derive(Debug)]
pub struct ResourceRecord {
    pub name: DomainName,
    pub rtype: u16,
    pub rclass: u16,
    pub ttl: u32,
    pub rdata: Vec<u8>,
}

/// A whole message. The header's four counts are the lengths of the sections.
#[derive(Debug)]
pub struct Message {
    pub id: u16,
    pub flags: Flags,
    pub questions: Vec<Query>,
    pub answers: Vec<ResourceRecord>,
    pub authority: Vec<ResourceRecord>,
    pub additional: Vec<ResourceRecord>,
}

pub struct QueryModel {
    pub name: Seq<Seq<u8>>,
    pub qtype: u16,
    pub qclass: u16,
}

pub struct RecordModel {
    pub name: Seq<Seq<u8>>,
    pub rtype: u16,
    pub rclass: u16,
    pub ttl: u32,
    pub rdata: Seq<u8>,
}

pub struct MessageModel {
    pub id: u16,
    pub flags: Flags,
    pub questions: Seq<QueryModel>,
    pub answers: Seq<RecordModel>,
    pub authority: Seq<RecordModel>,
    pub additional: Seq<RecordModel>,
}

impl View for Query {
    type V = QueryModel;

    open spec fn view(&self) -> QueryModel {
        QueryModel { name: self.name@, qtype: self.qtype, qclass: self.qclass }
    }
}

impl View for ResourceRecord {
    type V = RecordModel;

    open spec fn view(&self) -> RecordModel {
        RecordModel {
            name: self.name@,
            rtype: self.rtype,
            rclass: self.rclass,
            ttl: self.ttl,
            rdata: self.rdata@,
        }
    }
}

pub open spec fn queries_view(qs: Seq<Query>) -> Seq<QueryModel> {
    qs.map_values(|q: Query| q@)
}

pub open spec fn records_view(rs: Seq<ResourceRecord>) -> Seq<RecordModel> {
    rs.map_values(|r: ResourceRecord| r@)
}

impl View for Message {
    type V = MessageModel;

    open spec fn view(&self) -> MessageModel {
        MessageModel {
            id: self.id,
            flags: self.flags,
            questions: queries_view(self.questions@),
            answers: records_view(self.answers@),
            authority: records_view(self.authority@),
            additional: records_view(self.additional@),
        }
    }
}

pub open spec fn u16_be(x: u16) -> Seq<u8> {
    seq![(x / 256) as u8, (x % 256) as u8]
}

pub open spec fn u32_be(x: u32) -> Seq<u8> {
    seq![(x / 0x1000000) as u8, ((x / 0x10000) % 256) as u8, ((x / 256) % 256) as u8, (x % 256) as u8]
}

pub open spec fn query_bytes(q: QueryModel) -> Seq<u8> {
    name_bytes(q.name) + u16_be(q.qtype) + u16_be(q.qclass)
}

pub open spec fn record_bytes(r: RecordModel) -> Seq<u8> {
    name_bytes(r.name) + u16_be(r.rtype) + u16_be(r.rclass) + u32_be(r.ttl) + u16_be(
        r.rdata.len() as u16,
    ) + r.rdata
}

pub open spec fn queries_bytes(qs: Seq<QueryModel>) -> Seq<u8> {
    qs.map_values(|q: QueryModel| query_bytes(q)).flatten()
}

pub open spec fn records_bytes(rs: Seq<RecordModel>) -> Seq<u8> {
    rs.map_values(|r: RecordModel| record_bytes(r)).flatten()
}

pub open spec fn header_bytes(m: MessageModel) -> Seq<u8> {
    u16_be(m.id) + u16_be(flags_word(m.flags)) + u16_be(m.questions.len() as u16) + u16_be(
        m.answers.len() as u16,
    ) + u16_be(m.authority.len() as u16) + u16_be(m.additional.len() as u16)
}

/// The wire form of a message, with uncompressed names.
pub open spec fn message_bytes(m: MessageModel) -> Seq<u8> {
    header_bytes(m) + queries_bytes(m.questions) + records_bytes(m.answers) + records_bytes(
        m.authority,
    ) + records_bytes(m.additional)
}

pub open spec fn queries_named(qs: Seq<QueryModel>) -> bool {
    forall|i: int| 0 <= i < qs.len() ==> valid_name(#[trigger] qs[i].name)
}

pub open spec fn records_named(rs: Seq<RecordModel>) -> bool {
    forall|i: int| 0 <= i < rs.len() ==> valid_name(#[trigger] rs[i].name)
}

/// Every name in the message meets the label rules.
pub open spec fn names_valid(m: MessageModel) -> bool {
    &&& queries_named(m.questions)
    &&& records_named(m.answers)
    &&& records_named(m.authority)
    &&& records_named(m.additional)
}

pub open spec fn records_fit(rs: Seq<RecordModel>) -> bool {
    &&& rs.len() <= 0xFFFF
    &&& forall|i: int| 0 <= i < rs.len() ==> #[trigger] rs[i].rdata.len() <= 0xFFFF
}

/// What the header's fields can hold: four-bit codes, 16-bit counts and
/// 16-bit data lengths.
pub open spec fn message_fits(m: MessageModel) -> bool {
    &&& flags_ok(m.flags)
    &&& m.questions.len() <= 0xFFFF
    &&& records_fit(m.answers)
    &&& records_fit(m.authority)
    &&& records_fit(m.additional)
}

/// A message that can be sent as it is.
pub open spec fn valid_message(m: MessageModel) -> bool {
    message_fits(m) && names_valid(m)
}

fn push_u16(out: &mut Vec<u8>, x: u16)
    ensures
        final(out)@ == old(out)@ + u16_be(x),
{
    out.push((x / 256) as u8);
    out.push((x % 256) as u8);
    assert(final(out)@ =~= old(out)@ + u16_be(x));
}

fn push_u32(out: &mut Vec<u8>, x: u32)
    ensures
        final(out)@ == old(out)@ + u32_be(x),
{
    out.push((x / 0x1000000) as u8);
    out.push(((x / 0x10000) % 256) as u8);
    out.push(((x / 256) % 256) as u8);
    out.push((x % 256) as u8);
    assert(final(out)@ =~= old(out)@ + u32_be(x));
}

fn encode_query(q: &Query, out: &mut Vec<u8>) -> (r: Result<(), CodecError>)
    ensures
        r is Ok <==> valid_name(q.name@),
        r is Ok ==> final(out)@ == old(out)@ + query_bytes(q@),
        r is Err ==> r == Err::<(), CodecError>(CodecError::InvalidName),
{
    encode_name(&q.name, out)?;
    push_u16(out, q.qtype);
    push_u16(out, q.qclass);
    assert(final(out)@ =~= old(out)@ + query_bytes(q@));
    Ok(())
}

fn encode_record(rr: &ResourceRecord, out: &mut Vec<u8>) -> (r: Result<(), CodecError>)
    requires
        rr.rdata@.len() <= 0xFFFF,
    ensures
        r is Ok <==> valid_name(rr.name@),
        r is Ok ==> final(out)@ == old(out)@ + record_bytes(rr@),
        r is Err ==> r == Err::<(), CodecError>(CodecError::InvalidName),
{
    encode_name(&rr.name, out)?;
    push_u16(out, rr.rtype);
    push_u16(out, rr.rclass);
    push_u32(out, rr.ttl);
    push_u16(out, rr.rdata.len() as u16);
    let ghost mid = out@;
    let mut j: usize = 0;
    while j < rr.rdata.len()
        invariant
            j <= rr.rdata.len(),
            out@ == mid + rr.rdata@.take(j as int),
        decreases rr.rdata.len() - j,
    {
        out.push(rr.rdata[j]);
        assert(rr.rdata@.take(j + 1) =~= rr.rdata@.take(j as int).push(rr.rdata[j as int]));
        j = j + 1;
    }
    assert(rr.rdata@.take(j as int) =~= rr.rdata@);
    assert(final(out)@ =~= old(out)@ + record_bytes(rr@));
    Ok(())
}

proof fn lemma_flatten_step<A>(s: Seq<A>, i: int, f: spec_fn(A) -> Seq<u8>)
    requires
        0 <= i < s.len(),
    ensures
        s.take(i + 1).map_values(f).flatten() == s.take(i).map_values(f).flatten() + f(s[i]),
{
    assert(s.take(i + 1).map_values(f) =~= s.take(i).map_values(f).push(f(s[i])));
    s.take(i).map_values(f).lemma_flatten_push(f(s[i]));
}

fn encode_queries(qs: &Vec<Query>, out: &mut Vec<u8>) -> (r: Result<(), CodecError>)
    ensures
        r is Ok <==> queries_named(queries_view(qs@)),
        r is Ok ==> final(out)@ == old(out)@ + queries_bytes(queries_view(qs@)),
        r is Err ==> r == Err::<(), CodecError>(CodecError::InvalidName),
{
    let ghost v = queries_view(qs@);
    let ghost start = out@;
    let mut i: usize = 0;
    while i < qs.len()
        invariant
            i <= qs.len(),
            v == queries_view(qs@),
            out@ == start + queries_bytes(v.take(i as int)),
            forall|j: int| 0 <= j < i ==> valid_name(#[trigger] v[j].name),
        decreases qs.len() - i,
    {
        proof {
            lemma_flatten_step(v, i as int, |q: QueryModel| query_bytes(q));
            assert(v.take(i as int).map_values(|q: QueryModel| query_bytes(q)) =~= v.take(
                i as int,
            ).map_values(|q: QueryModel| query_bytes(q)));
        }
        let res = encode_query(&qs[i], out);
        if res.is_err() {
            return res;
        }
        assert(out@ =~= start + queries_bytes(v.take(i + 1)));
        i = i + 1;
    }
    assert(v.take(i as int) =~= v);
    Ok(())
}

fn encode_records(rs: &Vec<ResourceRecord>, out: &mut Vec<u8>) -> (r: Result<(), CodecError>)
    requires
        records_fit(records_view(rs@)),
    ensures
        r is Ok <==> records_named(records_view(rs@)),
        r is Ok ==> final(out)@ == old(out)@ + records_bytes(records_view(rs@)),
        r is Err ==> r == Err::<(), CodecError>(CodecError::InvalidName),
{
    let ghost v = records_view(rs@);
    let ghost start = out@;
    let mut i: usize = 0;
    while i < rs.len()
        invariant
            i <= rs.len(),
            v == records_view(rs@),
            records_fit(v),
            out@ == start + records_bytes(v.take(i as int)),
            forall|j: int| 0 <= j < i ==> valid_name(#[trigger] v[j].name),
        decreases rs.len() - i,
    {
        proof {
            lemma_flatten_step(v, i as int, |r: RecordModel| record_bytes(r));
            assert(v[i as int].rdata.len() <= 0xFFFF);
        }
        let res = encode_record(&rs[i], out);
        if res.is_err() {
            return res;
        }
        assert(out@ =~= start + records_bytes(v.take(i + 1)));
        i = i + 1;
    }
    assert(v.take(i as int) =~= v);
    Ok(())
}

/// Encodes a message in the wire form, names uncompressed. Fails with
/// `InvalidName`, and only so, when a name breaks the label rules.
pub fn encode(m: &Message) -> (r: Result<Vec<u8>, CodecError>)
    requires
        message_fits(m@),
    ensures
        r is Ok <==> names_valid(m@),
        r matches Ok(b) ==> b@ == message_bytes(m@),
        r is Err ==> r == Err::<Vec<u8>, CodecError>(CodecError::InvalidName),
{
    let mut out: Vec<u8> = Vec::new();
    push_u16(&mut out, m.id);
    let w = pack_flags(m.flags);
    push_u16(&mut out, w);
    push_u16(&mut out, m.questions.len() as u16);
    push_u16(&mut out, m.answers.len() as u16);
    push_u16(&mut out, m.authority.len() as u16);
    push_u16(&mut out, m.additional.len() as u16);
    let ghost h = out@;
    assert(h =~= header_bytes(m@));
    encode_queries(&m.questions, &mut out)?;
    encode_records(&m.answers, &mut out)?;
    encode_records(&m.authority, &mut out)?;
    encode_records(&m.additional, &mut out)?;
    assert(out@ =~= message_bytes(m@));
    Ok(out)
}

pub open spec fn be16(buf: Seq<u8>, pos: int) -> u16 {
    (buf[pos] as int * 256 + buf[pos + 1] as int) as u16
}

pub open spec fn be32(buf: Seq<u8>, pos: int) -> u32 {
    (buf[pos] as int * 0x1000000 + buf[pos + 1] as int * 0x10000 + buf[pos + 2] as int * 256
        + buf[pos + 3] as int) as u32
}

/// The question at `pos`, and the position after it.
pub open spec fn parse_query(buf: Seq<u8>, pos: int) -> Result<(QueryModel, int), CodecError> {
    match read_name(buf, pos) {
        Err(e) => Err(e),
        Ok((n, p)) => if p + 4 > buf.len() {
            Err(CodecError::Truncated)
        } else {
            Ok((QueryModel { name: n, qtype: be16(buf, p), qclass: be16(buf, p + 2) }, p + 4))
        },
    }
}

/// The resource record at `pos`, and the position after it.
pub open spec fn parse_record(buf: Seq<u8>, pos: int) -> Result<(RecordModel, int), CodecError> {
    match read_name(buf, pos) {
        Err(e) => Err(e),
        Ok((n, p)) => if p + 10 > buf.len() {
            Err(CodecError::Truncated)
        } else if p + 10 + be16(buf, p + 8) > buf.len() {
            Err(CodecError::Truncated)
        } else {
            Ok(
                (
                    RecordModel {
                        name: n,
                        rtype: be16(buf, p),
                        rclass: be16(buf, p + 2),
                        ttl: be32(buf, p + 4),
                        rdata: buf.subrange(p + 10, p + 10 + be16(buf, p + 8)),
                    },
                    p + 10 + be16(buf, p + 8),
                ),
            )
        },
    }
}

/// `n` questions from `pos` on, after those in `acc`.
pub open spec fn parse_queries(buf: Seq<u8>, pos: int, n: nat, acc: Seq<QueryModel>) -> Result<
    (Seq<QueryModel>, int),
    CodecError,
>
    decreases n,
{
    if n == 0 {
        Ok((acc, pos))
    } else {
        match parse_query(buf, pos) {
            Err(e) => Err(e),
            Ok((q, p)) => parse_queries(buf, p, (n - 1) as nat, acc.push(q)),
        }
    }
}

/// `n` resource records from `pos` on, after those in `acc`.
pub open spec fn parse_records(buf: Seq<u8>, pos: int, n: nat, acc: Seq<RecordModel>) -> Result<
    (Seq<RecordModel>, int),
    CodecError,
>
    decreases n,
{
    if n == 0 {
        Ok((acc, pos))
    } else {
        match parse_record(buf, pos) {
            Err(e) => Err(e),
            Ok((r, p)) => parse_records(buf, p, (n - 1) as nat, acc.push(r)),
        }
    }
}

/// The message that `buf` holds: the header, then as many questions and
/// records as its counts declare, which must end exactly at the buffer's end.
pub open spec fn parse_message(buf: Seq<u8>) -> Result<MessageModel, CodecError> {
    if buf.len() < HEADER_LEN {
        Err(CodecError::Truncated)
    } else {
        match parse_queries(buf, HEADER_LEN as int, be16(buf, 4) as nat, seq![]) {
            Err(e) => Err(e),
            Ok((qs, end_qd)) => match parse_records(buf, end_qd, be16(buf, 6) as nat, seq![]) {
                Err(e) => Err(e),
                Ok((an, end_an)) => match parse_records(buf, end_an, be16(buf, 8) as nat, seq![]) {
                    Err(e) => Err(e),
                    Ok((ns, end_ns)) => match parse_records(buf, end_ns, be16(buf, 10) as nat, seq![]) {
                        Err(e) => Err(e),
                        Ok((ar, end_ar)) => if end_ar != buf.len() {
                            Err(CodecError::CountMismatch)
                        } else {
                            Ok(
                                MessageModel {
                                    id: be16(buf, 0),
                                    flags: flags_of(be16(buf, 2)),
                                    questions: qs,
                                    answers: an,
                                    authority: ns,
                                    additional: ar,
                                },
                            )
                        },
                    },
                },
            },
        }
    }
}

fn get_u16(buf: &[u8], pos: usize) -> (r: u16)
    requires
        pos + 2 <= buf@.len(),
    ensures
        r == be16(buf@, pos as int),
{
    (buf[pos] as u16) * 256 + buf[pos + 1] as u16
}

fn get_u32(buf: &[u8], pos: usize) -> (r: u32)
    requires
        pos + 4 <= buf@.len(),
    ensures
        r == be32(buf@, pos as int),
{
    (buf[pos] as u32) * 0x1000000 + (buf[pos + 1] as u32) * 0x10000 + (buf[pos + 2] as u32) * 256
        + buf[pos + 3] as u32
}

fn decode_query(buf: &[u8], pos: usize) -> (r: Result<(Query, usize), CodecError>)
    ensures
        match r {
            Ok((q, p)) => parse_query(buf@, pos as int) == Ok::<_, CodecError>((q@, p as int)),
            Err(e) => parse_query(buf@, pos as int) == Err::<(QueryModel, int), _>(e),
        },
{
    let (name, p) = decode_name(buf, pos)?;
    if p > buf.len() || buf.len() - p < 4 {
        return Err(CodecError::Truncated);
    }
    let qtype = get_u16(buf, p);
    let qclass = get_u16(buf, p + 2);
    Ok((Query { name, qtype, qclass }, p + 4))
}

fn decode_record(buf: &[u8], pos: usize) -> (r: Result<(ResourceRecord, usize), CodecError>)
    ensures
        match r {
            Ok((rr, p)) => parse_record(buf@, pos as int) == Ok::<_, CodecError>((rr@, p as int)),
            Err(e) => parse_record(buf@, pos as int) == Err::<(RecordModel, int), _>(e),
        },
{
    let (name, p) = decode_name(buf, pos)?;
    if p > buf.len() || buf.len() - p < 10 {
        return Err(CodecError::Truncated);
    }
    let rtype = get_u16(buf, p);
    let rclass = get_u16(buf, p + 2);
    let ttl = get_u32(buf, p + 4);
    let rdlen = get_u16(buf, p + 8) as usize;
    if buf.len() - (p + 10) < rdlen {
        return Err(CodecError::Truncated);
    }
    let rdata = slice_to_vec(slice_subrange(buf, p + 10, p + 10 + rdlen));
    Ok((ResourceRecord { name, rtype, rclass, ttl, rdata }, p + 10 + rdlen))
}

fn decode_queries(buf: &[u8], pos: usize, n: u16) -> (r: Result<(Vec<Query>, usize), CodecError>)
    ensures
        match r {
            Ok((qs, p)) => parse_queries(buf@, pos as int, n as nat, seq![]) == Ok::<
                _,
                CodecError,
            >((queries_view(qs@), p as int)),
            Err(e) => parse_queries(buf@, pos as int, n as nat, seq![]) == Err::<
                (Seq<QueryModel>, int),
                _,
            >(e),
        },
{
    let mut qs: Vec<Query> = Vec::new();
    let mut p = pos;
    let mut i: u16 = 0;
    assert(queries_view(qs@) =~= seq![]);
    while i < n
        invariant
            i <= n,
            parse_queries(buf@, pos as int, n as nat, seq![]) == parse_queries(
                buf@,
                p as int,
                (n - i) as nat,
                queries_view(qs@),
            ),
        decreases n - i,
    {
        let (q, next) = decode_query(buf, p)?;
        proof {
            assert(queries_view(qs@.push(q)) =~= queries_view(qs@).push(q@));
        }
        qs.push(q);
        p = next;
        i = i + 1;
    }
    Ok((qs, p))
}

fn decode_records(buf: &[u8], pos: usize, n: u16) -> (r: Result<
    (Vec<ResourceRecord>, usize),
    CodecError,
>)
    ensures
        match r {
            Ok((rs, p)) => parse_records(buf@, pos as int, n as nat, seq![]) == Ok::<
                _,
                CodecError,
            >((records_view(rs@), p as int)),
            Err(e) => parse_records(buf@, pos as int, n as nat, seq![]) == Err::<
                (Seq<RecordModel>, int),
                _,
            >(e),
        },
{
    let mut rs: Vec<ResourceRecord> = Vec::new();
    let mut p = pos;
    let mut i: u16 = 0;
    assert(records_view(rs@) =~= seq![]);
    while i < n
        invariant
            i <= n,
            parse_records(buf@, pos as int, n as nat, seq![]) == parse_records(
                buf@,
                p as int,
                (n - i) as nat,
                records_view(rs@),
            ),
        decreases n - i,
    {
        let (rr, next) = decode_record(buf, p)?;
        proof {
            assert(records_view(rs@.push(rr)) =~= records_view(rs@).push(rr@));
        }
        rs.push(rr);
        p = next;
        i = i + 1;
    }
    Ok((rs, p))
}

/// Decodes a whole message, following compression pointers in names.
/// Fails with `Truncated` where a field runs past the end, `CountMismatch`
/// where bytes are left after the declared records, `CompressionLoop` where
/// a name's pointers go round, and `InvalidName` on a reserved label kind.
pub fn decode(buf: &[u8]) -> (r: Result<Message, CodecError>)
    ensures
        match r {
            Ok(m) => parse_message(buf@) == Ok::<_, CodecError>(m@),
            Err(e) => parse_message(buf@) == Err::<MessageModel, _>(e),
        },
{
    if buf.len() < HEADER_LEN {
        return Err(CodecError::Truncated);
    }
    let id = get_u16(buf, 0);
    let flags = unpack_flags(get_u16(buf, 2));
    let qd = get_u16(buf, 4);
    let an = get_u16(buf, 6);
    let ns = get_u16(buf, 8);
    let ar = get_u16(buf, 10);
    let (questions, end_qd) = decode_queries(buf, HEADER_LEN, qd)?;
    let (answers, end_an) = decode_records(buf, end_qd, an)?;
    let (authority, end_ns) = decode_records(buf, end_an, ns)?;
    let (additional, end_ar) = decode_records(buf, end_ns, ar)?;
    if end_ar != buf.len() {
        return Err(CodecError::CountMismatch);
    }
    Ok(Message { id, flags, questions, answers, authority, additional })
}

proof fn lemma_window(buf: Seq<u8>, pos: int, whole: Seq<u8>, a: int, b: int)
    requires
        0 <= pos,
        pos + whole.len() <= buf.len(),
        buf.subrange(pos, pos + whole.len()) == whole,
        0 <= a <= b <= whole.len(),
    ensures
        buf.subrange(pos + a, pos + b) == whole.subrange(a, b),
        forall|k: int| a <= k < b ==> buf[pos + k] == whole[k],
{
    assert(buf.subrange(pos + a, pos + b) =~= whole.subrange(a, b)) by {
        assert forall|k: int| 0 <= k < b - a implies #[trigger] buf.subrange(pos + a, pos + b)[k] == whole[a
            + k] by {
            assert(buf.subrange(pos, pos + whole.len())[a + k] == buf[pos + a + k]);
        }
    }
    assert forall|k: int| a <= k < b implies buf[pos + k] == whole[k] by {
        assert(buf.subrange(pos, pos + whole.len())[k] == buf[pos + k]);
    }
}

proof fn lemma_be16(buf: Seq<u8>, p: int, x: u16)
    requires
        0 <= p,
        p + 2 <= buf.len(),
        buf[p] == u16_be(x)[0],
        buf[p + 1] == u16_be(x)[1],
    ensures
        be16(buf, p) == x,
{
}

proof fn lemma_be32(buf: Seq<u8>, p: int, x: u32)
    requires
        0 <= p,
        p + 4 <= buf.len(),
        buf[p] == u32_be(x)[0],
        buf[p + 1] == u32_be(x)[1],
        buf[p + 2] == u32_be(x)[2],
        buf[p + 3] == u32_be(x)[3],
    ensures
        be32(buf, p) == x,
{
}

proof fn lemma_u16_at(buf: Seq<u8>, pos: int, whole: Seq<u8>, k: int, x: u16)
    requires
        0 <= pos,
        pos + whole.len() <= buf.len(),
        buf.subrange(pos, pos + whole.len()) == whole,
        0 <= k,
        k + 2 <= whole.len(),
        whole.subrange(k, k + 2) == u16_be(x),
    ensures
        be16(buf, pos + k) == x,
{
    lemma_window(buf, pos, whole, k, k + 2);
    assert(buf[pos + k] == buf.subrange(pos + k, pos + k + 2)[0]);
    assert(buf[pos + k + 1] == buf.subrange(pos + k, pos + k + 2)[1]);
    lemma_be16(buf, pos + k, x);
}

proof fn lemma_u32_at(buf: Seq<u8>, pos: int, whole: Seq<u8>, k: int, x: u32)
    requires
        0 <= pos,
        pos + whole.len() <= buf.len(),
        buf.subrange(pos, pos + whole.len()) == whole,
        0 <= k,
        k + 4 <= whole.len(),
        whole.subrange(k, k + 4) == u32_be(x),
    ensures
        be32(buf, pos + k) == x,
{
    lemma_window(buf, pos, whole, k, k + 4);
    let w = buf.subrange(pos + k, pos + k + 4);
    assert(buf[pos + k] == w[0]);
    assert(buf[pos + k + 1] == w[1]);
    assert(buf[pos + k + 2] == w[2]);
    assert(buf[pos + k + 3] == w[3]);
    lemma_be32(buf, pos + k, x);
}

proof fn lemma_query_round_trip(buf: Seq<u8>, pos: int, q: QueryModel)
    requires
        valid_name(q.name),
        0 <= pos,
        pos + query_bytes(q).len() <= buf.len(),
        buf.subrange(pos, pos + query_bytes(q).len()) == query_bytes(q),
    ensures
        parse_query(buf, pos) == Ok::<_, CodecError>((q, pos + query_bytes(q).len())),
{
    let qb = query_bytes(q);
    let k = name_bytes(q.name).len() as int;
    lemma_window(buf, pos, qb, 0, qb.len() as int);
    lemma_window(buf, pos, qb, 0, k);
    assert(qb.subrange(0, k) =~= name_bytes(q.name));
    lemma_name_round_trip(buf, pos, q.name);
    assert(qb.subrange(k, k + 2) =~= u16_be(q.qtype));
    assert(qb.subrange(k + 2, k + 4) =~= u16_be(q.qclass));
    lemma_u16_at(buf, pos, qb, k, q.qtype);
    lemma_u16_at(buf, pos, qb, k + 2, q.qclass);
}

proof fn lemma_record_round_trip(buf: Seq<u8>, pos: int, r: RecordModel)
    requires
        valid_name(r.name),
        r.rdata.len() <= 0xFFFF,
        0 <= pos,
        pos + record_bytes(r).len() <= buf.len(),
        buf.subrange(pos, pos + record_bytes(r).len()) == record_bytes(r),
    ensures
        parse_record(buf, pos) == Ok::<_, CodecError>((r, pos + record_bytes(r).len())),
{
    let rb = record_bytes(r);
    let k = name_bytes(r.name).len() as int;
    lemma_window(buf, pos, rb, 0, rb.len() as int);
    lemma_window(buf, pos, rb, 0, k);
    assert(rb.subrange(0, k) =~= name_bytes(r.name));
    lemma_name_round_trip(buf, pos, r.name);
    let p = pos + k;
    assert(rb.subrange(k, k + 2) =~= u16_be(r.rtype));
    assert(rb.subrange(k + 2, k + 4) =~= u16_be(r.rclass));
    assert(rb.subrange(k + 4, k + 8) =~= u32_be(r.ttl));
    assert(rb.subrange(k + 8, k + 10) =~= u16_be(r.rdata.len() as u16));
    lemma_u16_at(buf, pos, rb, k, r.rtype);
    lemma_u16_at(buf, pos, rb, k + 2, r.rclass);
    lemma_u32_at(buf, pos, rb, k + 4, r.ttl);
    lemma_u16_at(buf, pos, rb, k + 8, r.rdata.len() as u16);
    assert(be16(buf, p + 8) == r.rdata.len());
    lemma_window(buf, pos, rb, k + 10, rb.len() as int);
    assert(rb.subrange(k + 10, rb.len() as int) =~= r.rdata);
}

proof fn lemma_queries_round_trip(buf: Seq<u8>, pos: int, qs: Seq<QueryModel>, acc: Seq<QueryModel>)
    requires
        queries_named(qs),
        0 <= pos,
        pos + queries_bytes(qs).len() <= buf.len(),
        buf.subrange(pos, pos + queries_bytes(qs).len()) == queries_bytes(qs),
    ensures
        parse_queries(buf, pos, qs.len(), acc) == Ok::<_, CodecError>(
            (acc + qs, pos + queries_bytes(qs).len()),
        ),
    decreases qs.len(),
{
    let f = |q: QueryModel| query_bytes(q);
    if qs.len() == 0 {
        assert(acc + qs =~= acc);
    } else {
        let rest = qs.drop_first();
        assert(qs.map_values(f).drop_first() =~= rest.map_values(f));
        let whole = queries_bytes(qs);
        let k = query_bytes(qs[0]).len() as int;
        assert(whole == query_bytes(qs[0]) + queries_bytes(rest));
        lemma_window(buf, pos, whole, 0, k);
        assert(whole.subrange(0, k) =~= query_bytes(qs[0]));
        assert(valid_name(qs[0].name));
        lemma_query_round_trip(buf, pos, qs[0]);
        lemma_window(buf, pos, whole, k, whole.len() as int);
        assert(whole.subrange(k, whole.len() as int) =~= queries_bytes(rest));
        assert(queries_named(rest)) by {
            assert forall|i: int| 0 <= i < rest.len() implies valid_name(#[trigger] rest[i].name) by {
                assert(rest[i] == qs[i + 1]);
            }
        }
        lemma_queries_round_trip(buf, pos + k, rest, acc.push(qs[0]));
        assert(acc.push(qs[0]) + rest =~= acc + qs);
    }
}

proof fn lemma_records_round_trip(buf: Seq<u8>, pos: int, rs: Seq<RecordModel>, acc: Seq<RecordModel>)
    requires
        records_named(rs),
        records_fit(rs),
        0 <= pos,
        pos + records_bytes(rs).len() <= buf.len(),
        buf.subrange(pos, pos + records_bytes(rs).len()) == records_bytes(rs),
    ensures
        parse_records(buf, pos, rs.len(), acc) == Ok::<_, CodecError>(
            (acc + rs, pos + records_bytes(rs).len()),
        ),
    decreases rs.len(),
{
    let f = |r: RecordModel| record_bytes(r);
    if rs.len() == 0 {
        assert(acc + rs =~= acc);
    } else {
        let rest = rs.drop_first();
        assert(rs.map_values(f).drop_first() =~= rest.map_values(f));
        let whole = records_bytes(rs);
        let k = record_bytes(rs[0]).len() as int;
        assert(whole == record_bytes(rs[0]) + records_bytes(rest));
        lemma_window(buf, pos, whole, 0, k);
        assert(whole.subrange(0, k) =~= record_bytes(rs[0]));
        assert(valid_name(rs[0].name));
        assert(rs[0].rdata.len() <= 0xFFFF);
        lemma_record_round_trip(buf, pos, rs[0]);
        lemma_window(buf, pos, whole, k, whole.len() as int);
        assert(whole.subrange(k, whole.len() as int) =~= records_bytes(rest));
        assert(records_named(rest) && records_fit(rest)) by {
            assert forall|i: int| 0 <= i < rest.len() implies valid_name(#[trigger] rest[i].name)
                && rest[i].rdata.len() <= 0xFFFF by {
                assert(rest[i] == rs[i + 1]);
            }
        }
        lemma_records_round_trip(buf, pos + k, rest, acc.push(rs[0]));
        assert(acc.push(rs[0]) + rest =~= acc + rs);
    }
}

proof fn lemma_header_round_trip(m: MessageModel, buf: Seq<u8>)
    requires
        message_fits(m),
        buf.len() >= 12,
        buf.subrange(0, 12) == header_bytes(m),
    ensures
        be16(buf, 0) == m.id,
        flags_of(be16(buf, 2)) == m.flags,
        be16(buf, 4) == m.questions.len(),
        be16(buf, 6) == m.answers.len(),
        be16(buf, 8) == m.authority.len(),
        be16(buf, 10) == m.additional.len(),
{
    let h = header_bytes(m);
    assert(h.len() == 12);
    assert(h.subrange(0, 2) =~= u16_be(m.id));
    assert(h.subrange(2, 4) =~= u16_be(flags_word(m.flags)));
    assert(h.subrange(4, 6) =~= u16_be(m.questions.len() as u16));
    assert(h.subrange(6, 8) =~= u16_be(m.answers.len() as u16));
    assert(h.subrange(8, 10) =~= u16_be(m.authority.len() as u16));
    assert(h.subrange(10, 12) =~= u16_be(m.additional.len() as u16));
    lemma_u16_at(buf, 0, h, 0, m.id);
    lemma_u16_at(buf, 0, h, 2, flags_word(m.flags));
    lemma_u16_at(buf, 0, h, 4, m.questions.len() as u16);
    lemma_u16_at(buf, 0, h, 6, m.answers.len() as u16);
    lemma_u16_at(buf, 0, h, 8, m.authority.len() as u16);
    lemma_u16_at(buf, 0, h, 10, m.additional.len() as u16);
    lemma_flags_round_trip(m.flags);
}

proof fn lemma_five_windows(h: Seq<u8>, q: Seq<u8>, a: Seq<u8>, n: Seq<u8>, d: Seq<u8>)
    requires
        h.len() == 12,
    ensures
        ({
            let buf = h + q + a + n + d;
            let end_qd = 12 + q.len();
            let end_an = end_qd + a.len();
            let end_ns = end_an + n.len();
            &&& buf.subrange(0, 12) == h
            &&& buf.subrange(12, end_qd as int) == q
            &&& buf.subrange(end_qd as int, end_an as int) == a
            &&& buf.subrange(end_an as int, end_ns as int) == n
            &&& buf.subrange(end_ns as int, buf.len() as int) == d
            &&& buf.len() == end_ns + d.len()
        }),
{
    let buf = h + q + a + n + d;
    let end_qd = 12 + q.len();
    let end_an = end_qd + a.len();
    let end_ns = end_an + n.len();
    assert(buf.subrange(0, 12) =~= h);
    assert(buf.subrange(12, end_qd as int) =~= q);
    assert(buf.subrange(end_qd as int, end_an as int) =~= a);
    assert(buf.subrange(end_an as int, end_ns as int) =~= n);
    assert(buf.subrange(end_ns as int, buf.len() as int) =~= d);
}

/// Decoding the wire form of a valid message gives the message back.
pub proof fn lemma_round_trip(m: MessageModel)
    requires
        valid_message(m),
    ensures
        parse_message(message_bytes(m)) == Ok::<_, CodecError>(m),
{
    let buf = message_bytes(m);
    let q = queries_bytes(m.questions);
    let a = records_bytes(m.answers);
    let n = records_bytes(m.authority);
    let d = records_bytes(m.additional);
    let end_qd = 12 + q.len();
    let end_an = end_qd + a.len();
    let end_ns = end_an + n.len();
    assert(header_bytes(m).len() == 12);
    lemma_five_windows(header_bytes(m), q, a, n, d);
    lemma_header_round_trip(m, buf);
    lemma_queries_round_trip(buf, 12, m.questions, seq![]);
    lemma_records_round_trip(buf, end_qd as int, m.answers, seq![]);
    lemma_records_round_trip(buf, end_an as int, m.authority, seq![]);
    lemma_records_round_trip(buf, end_ns as int, m.additional, seq![]);
    assert(seq![] + m.questions =~= m.questions);
    assert(seq![] + m.answers =~= m.answers);
    assert(seq![] + m.authority =~= m.authority);
    assert(seq![] + m.additional =~= m.additional);
}

proof fn lemma_query_short(buf: Seq<u8>, pos: int, q: QueryModel)
    requires
        valid_name(q.name),
        1 <= pos,
        agrees(buf, pos, query_bytes(q)),
        pos + query_bytes(q).len() > buf.len(),
    ensures
        parse_query(buf, pos) == Err::<(QueryModel, int), CodecError>(CodecError::Truncated),
{
    let nb = name_bytes(q.name);
    let tail = u16_be(q.qtype) + u16_be(q.qclass);
    assert(query_bytes(q) =~= nb + tail);
    lemma_agrees_split(buf, pos, nb, tail);
    if pos + nb.len() > buf.len() {
        lemma_name_short(buf, pos, q.name);
    } else {
        lemma_agrees_fits(buf, pos, nb);
        lemma_name_round_trip(buf, pos, q.name);
    }
}

proof fn lemma_record_short(buf: Seq<u8>, pos: int, r: RecordModel)
    requires
        valid_name(r.name),
        r.rdata.len() <= 0xFFFF,
        1 <= pos,
        agrees(buf, pos, record_bytes(r)),
        pos + record_bytes(r).len() > buf.len(),
    ensures
        parse_record(buf, pos) == Err::<(RecordModel, int), CodecError>(CodecError::Truncated),
{
    let nb = name_bytes(r.name);
    let fixed = u16_be(r.rtype) + u16_be(r.rclass) + u32_be(r.ttl) + u16_be(r.rdata.len() as u16);
    let tail = fixed + r.rdata;
    assert(record_bytes(r) =~= nb + tail);
    lemma_agrees_split(buf, pos, nb, tail);
    if pos + nb.len() > buf.len() {
        lemma_name_short(buf, pos, r.name);
    } else {
        lemma_agrees_fits(buf, pos, nb);
        lemma_name_round_trip(buf, pos, r.name);
        let p = pos + nb.len();
        if p + 10 <= buf.len() {
            lemma_agrees_split(buf, p, fixed, r.rdata);
            lemma_agrees_fits(buf, p, fixed);
            assert(fixed.subrange(8, 10) =~= u16_be(r.rdata.len() as u16));
            lemma_u16_at(buf, p, fixed, 8, r.rdata.len() as u16);
        }
    }
}

proof fn lemma_queries_short(buf: Seq<u8>, pos: int, qs: Seq<QueryModel>, acc: Seq<QueryModel>)
    requires
        queries_named(qs),
        1 <= pos,
        agrees(buf, pos, queries_bytes(qs)),
        pos + queries_bytes(qs).len() > buf.len(),
    ensures
        parse_queries(buf, pos, qs.len(), acc) == Err::<(Seq<QueryModel>, int), CodecError>(
            CodecError::Truncated,
        ),
    decreases qs.len(),
{
    let f = |q: QueryModel| query_bytes(q);
    let rest = qs.drop_first();
    assert(qs.map_values(f).drop_first() =~= rest.map_values(f));
    let head = query_bytes(qs[0]);
    assert(queries_bytes(qs) == head + queries_bytes(rest));
    lemma_agrees_split(buf, pos, head, queries_bytes(rest));
    assert(valid_name(qs[0].name));
    if pos + head.len() > buf.len() {
        lemma_query_short(buf, pos, qs[0]);
    } else {
        lemma_agrees_fits(buf, pos, head);
        lemma_query_round_trip(buf, pos, qs[0]);
        assert(queries_named(rest)) by {
            assert forall|i: int| 0 <= i < rest.len() implies valid_name(#[trigger] rest[i].name) by {
                assert(rest[i] == qs[i + 1]);
            }
        }
        lemma_queries_short(buf, pos + head.len(), rest, acc.push(qs[0]));
    }
}

proof fn lemma_records_short(buf: Seq<u8>, pos: int, rs: Seq<RecordModel>, acc: Seq<RecordModel>)
    requires
        records_named(rs),
        records_fit(rs),
        1 <= pos,
        agrees(buf, pos, records_bytes(rs)),
        pos + records_bytes(rs).len() > buf.len(),
    ensures
        parse_records(buf, pos, rs.len(), acc) == Err::<(Seq<RecordModel>, int), CodecError>(
            CodecError::Truncated,
        ),
    decreases rs.len(),
{
    let f = |r: RecordModel| record_bytes(r);
    let rest = rs.drop_first();
    assert(rs.map_values(f).drop_first() =~= rest.map_values(f));
    let head = record_bytes(rs[0]);
    assert(records_bytes(rs) == head + records_bytes(rest));
    lemma_agrees_split(buf, pos, head, records_bytes(rest));
    assert(valid_name(rs[0].name));
    assert(rs[0].rdata.len() <= 0xFFFF);
    if pos + head.len() > buf.len() {
        lemma_record_short(buf, pos, rs[0]);
    } else {
        lemma_agrees_fits(buf, pos, head);
        lemma_record_round_trip(buf, pos, rs[0]);
        assert(records_named(rest) && records_fit(rest)) by {
            assert forall|i: int| 0 <= i < rest.len() implies valid_name(#[trigger] rest[i].name)
                && rest[i].rdata.len() <= 0xFFFF by {
                assert(rest[i] == rs[i + 1]);
            }
        }
        lemma_records_short(buf, pos + head.len(), rest, acc.push(rs[0]));
    }
}

/// Every proper prefix of the wire form of a valid message decodes as
/// `Truncated`: the decoder never reads past the end and never accepts a
/// message cut short.
pub proof fn lemma_truncation(m: MessageModel, k: int)
    requires
        valid_message(m),
        0 <= k < message_bytes(m).len(),
    ensures
        parse_message(message_bytes(m).take(k)) == Err::<MessageModel, CodecError>(
            CodecError::Truncated,
        ),
{
    let full = message_bytes(m);
    let buf = full.take(k);
    let h = header_bytes(m);
    let q = queries_bytes(m.questions);
    let a = records_bytes(m.answers);
    let n = records_bytes(m.authority);
    let d = records_bytes(m.additional);
    let end_qd = 12 + q.len();
    let end_an = end_qd + a.len();
    let end_ns = end_an + n.len();
    assert(h.len() == 12);
    lemma_five_windows(h, q, a, n, d);
    if k >= 12 {
        lemma_agrees_prefix(full, buf, 0, h);
        lemma_agrees_fits(buf, 0, h);
        lemma_header_round_trip(m, buf);
        lemma_agrees_prefix(full, buf, 12, q);
        if end_qd > k {
            lemma_queries_short(buf, 12, m.questions, seq![]);
        } else {
            lemma_agrees_fits(buf, 12, q);
            lemma_queries_round_trip(buf, 12, m.questions, seq![]);
            lemma_agrees_prefix(full, buf, end_qd as int, a);
            if end_an > k {
                lemma_records_short(buf, end_qd as int, m.answers, seq![]);
            } else {
                lemma_agrees_fits(buf, end_qd as int, a);
                lemma_records_round_trip(buf, end_qd as int, m.answers, seq![]);
                lemma_agrees_prefix(full, buf, end_an as int, n);
                if end_ns > k {
                    lemma_records_short(buf, end_an as int, m.authority, seq![]);
                } else {
                    lemma_agrees_fits(buf, end_an as int, n);
                    lemma_records_round_trip(buf, end_an as int, m.authority, seq![]);
                    lemma_agrees_prefix(full, buf, end_ns as int, d);
                    lemma_records_short(buf, end_ns as int, m.additional, seq![]);
                }
            }
        }
    }
}

proof fn lemma_agrees_prefix(full: Seq<u8>, buf: Seq<u8>, pos: int, x: Seq<u8>)
    requires
        buf.len() <= full.len(),
        buf == full.take(buf.len() as int),
        0 <= pos <= buf.len(),
        pos + x.len() <= full.len(),
        full.subrange(pos, pos + x.len()) == x,
    ensures
        agrees(buf, pos, x),
{
    assert forall|i: int| 0 <= i < x.len() && pos + i < buf.len() implies buf[pos + i]
        == #[trigger] x[i] by {
        assert(full.subrange(pos, pos + x.len())[i] == full[pos + i]);
    }
}

/// A message whose first question's name is a pointer to itself decodes as
/// a compression loop.
pub proof fn lemma_self_pointer_message(buf: Seq<u8>)
    requires
        buf.len() >= 14,
        be16(buf, 4) >= 1,
        buf[12] == 0xC0,
        buf[13] == 12,
    ensures
        parse_message(buf) == Err::<MessageModel, CodecError>(CodecError::CompressionLoop),
{
    lemma_self_pointer_loops(buf, 12);
}

} // verus!
