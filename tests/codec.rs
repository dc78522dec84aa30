use resolve::error::{CodecError, ResolveError, TransportError};
use resolve::name::{decode_name, encode_name, parse_domain, DomainName};
use resolve::resolver::{build_query, complete, interpret, query_for, ResolverRequest};
use resolve::wire::{
    decode, encode, pack_flags, unpack_flags, Flags, Message, Query, ResourceRecord, RCODE_NXDOMAIN,
};

fn name(text: &str) -> DomainName {
    parse_domain(text.as_bytes()).unwrap()
}

fn labels(n: &DomainName) -> Vec<Vec<u8>> {
    n.labels.clone()
}

fn example_query_bytes(id: u16) -> Vec<u8> {
    let mut b = vec![(id >> 8) as u8, id as u8, 0x01, 0x00, 0, 1, 0, 0, 0, 0, 0, 0];
    b.extend_from_slice(&[7, b'e', b'x', b'a', b'm', b'p', b'l', b'e', 3, b'c', b'o', b'm', 0]);
    b.extend_from_slice(&[0, 1, 0, 1]);
    b
}

/// A reply to `example_query_bytes(id)` with the given flags and answers,
/// each answer naming the question by a pointer to offset 12.
fn reply(id: u16, flags: u16, answers: &[(u16, u32, Vec<u8>)]) -> Vec<u8> {
    let mut b = example_query_bytes(id);
    b[2] = (flags >> 8) as u8;
    b[3] = flags as u8;
    b[7] = answers.len() as u8;
    for (rtype, ttl, rdata) in answers {
        b.extend_from_slice(&[0xC0, 12]);
        b.extend_from_slice(&rtype.to_be_bytes());
        b.extend_from_slice(&[0, 1]);
        b.extend_from_slice(&ttl.to_be_bytes());
        b.extend_from_slice(&(rdata.len() as u16).to_be_bytes());
        b.extend_from_slice(rdata);
    }
    b
}

fn sample_message() -> Message {
    Message {
        id: 0xBEEF,
        flags: Flags { qr: true, opcode: 2, aa: true, tc: false, rd: true, ra: true, rcode: 3 },
        questions: vec![Query { name: name("example.com"), qtype: 1, qclass: 1 }],
        answers: vec![
            ResourceRecord { name: name("example.com"), rtype: 1, rclass: 1, ttl: 300, rdata: vec![93, 184, 216, 34] },
            ResourceRecord { name: name("www.example.com"), rtype: 16, rclass: 1, ttl: 70000, rdata: vec![3, b'a', b'b', b'c'] },
        ],
        authority: vec![ResourceRecord { name: name("ns.example"), rtype: 2, rclass: 1, ttl: 0, rdata: vec![] }],
        additional: vec![],
    }
}

#[test]
fn parse_domain_splits_at_dots() {
    let n = name("www.example.com");
    assert_eq!(labels(&n), vec![b"www".to_vec(), b"example".to_vec(), b"com".to_vec()]);
}

#[test]
fn parse_domain_rejects_empty_labels() {
    assert_eq!(parse_domain(b"").unwrap_err(), CodecError::InvalidName);
    assert_eq!(parse_domain(b"a..b").unwrap_err(), CodecError::InvalidName);
    assert_eq!(parse_domain(b".com").unwrap_err(), CodecError::InvalidName);
    assert_eq!(parse_domain(b"example.com.").unwrap_err(), CodecError::InvalidName);
}

#[test]
fn label_of_63_bytes_is_accepted_and_64_rejected() {
    let ok = format!("{}.com", "a".repeat(63));
    assert!(parse_domain(ok.as_bytes()).is_ok());
    let bad = format!("{}.com", "a".repeat(64));
    assert_eq!(parse_domain(bad.as_bytes()).unwrap_err(), CodecError::InvalidName);
}

#[test]
fn name_of_255_bytes_is_accepted_and_256_rejected() {
    // 4 labels of 63 bytes take 256 bytes with the root label.
    let three = vec!["a".repeat(63); 3].join(".");
    let ok = format!("{}.{}", three, "b".repeat(61)); // 3*64 + 62 + 1 = 255
    assert!(parse_domain(ok.as_bytes()).is_ok());
    let bad = format!("{}.{}", three, "b".repeat(62)); // 256
    assert_eq!(parse_domain(bad.as_bytes()).unwrap_err(), CodecError::InvalidName);
}

#[test]
fn encode_name_rejects_long_label_and_long_name() {
    let mut out = vec![9u8];
    let long_label = DomainName { labels: vec![vec![b'x'; 64]] };
    assert_eq!(encode_name(&long_label, &mut out), Err(CodecError::InvalidName));
    assert_eq!(out, vec![9u8]);
    let long_name = DomainName { labels: vec![vec![b'x'; 50]; 5] };
    assert_eq!(encode_name(&long_name, &mut out), Err(CodecError::InvalidName));
    let empty_label = DomainName { labels: vec![vec![]] };
    assert_eq!(encode_name(&empty_label, &mut out), Err(CodecError::InvalidName));
    assert_eq!(out, vec![9u8]);
}

#[test]
fn encode_name_writes_length_prefixed_labels() {
    let mut out = vec![];
    encode_name(&name("ab.c"), &mut out).unwrap();
    assert_eq!(out, vec![2, b'a', b'b', 1, b'c', 0]);
}

#[test]
fn encode_rejects_message_with_invalid_name() {
    let mut m = sample_message();
    m.answers[0].name = DomainName { labels: vec![vec![b'y'; 70]] };
    assert_eq!(encode(&m).unwrap_err(), CodecError::InvalidName);
}

#[test]
fn flags_pack_at_documented_bits() {
    let q = Flags { qr: false, opcode: 0, aa: false, tc: false, rd: true, ra: false, rcode: 0 };
    assert_eq!(pack_flags(q), 0x0100);
    let r = Flags { qr: true, opcode: 2, aa: true, tc: true, rd: false, ra: true, rcode: 3 };
    assert_eq!(pack_flags(r), 0x8000 | (2 << 11) | 0x400 | 0x200 | 0x80 | 3);
    assert_eq!(unpack_flags(pack_flags(r)), r);
    // the reserved bits are dropped
    assert_eq!(unpack_flags(0x8183 | 0x70), unpack_flags(0x8183));
    assert_eq!(unpack_flags(0x8183).rcode, 3);
}

#[test]
fn query_for_gives_the_standard_a_query() {
    assert_eq!(query_for(b"example.com", 0x1234).unwrap(), example_query_bytes(0x1234));
    assert_eq!(query_for(b"bad..name", 1).unwrap_err(), ResolveError::InvalidName);
}

#[test]
fn build_query_sets_recursion_desired() {
    let m = build_query(name("example.com"), 7);
    assert_eq!(m.id, 7);
    assert!(m.flags.rd && !m.flags.qr);
    assert_eq!(m.questions.len(), 1);
    assert_eq!(m.questions[0].qtype, 1);
    assert!(m.answers.is_empty());
}

#[test]
fn decode_of_encode_gives_the_message_back() {
    let m = sample_message();
    let bytes = encode(&m).unwrap();
    let d = decode(&bytes).unwrap();
    assert_eq!(d.id, m.id);
    assert_eq!(d.flags, m.flags);
    assert_eq!(d.questions.len(), 1);
    assert_eq!(labels(&d.questions[0].name), labels(&m.questions[0].name));
    assert_eq!(d.answers.len(), 2);
    for (a, b) in d.answers.iter().zip(m.answers.iter()) {
        assert_eq!(labels(&a.name), labels(&b.name));
        assert_eq!((a.rtype, a.rclass, a.ttl), (b.rtype, b.rclass, b.ttl));
        assert_eq!(a.rdata, b.rdata);
    }
    assert_eq!(d.authority.len(), 1);
    assert_eq!(labels(&d.authority[0].name), labels(&m.authority[0].name));
    assert!(d.additional.is_empty());
    assert_eq!(encode(&d).unwrap(), bytes);
}

#[test]
fn every_truncation_is_reported_as_truncated() {
    let bytes = encode(&sample_message()).unwrap();
    for k in 0..bytes.len() {
        assert_eq!(decode(&bytes[..k]).unwrap_err(), CodecError::Truncated, "cut at {}", k);
    }
}

#[test]
fn trailing_bytes_are_a_count_mismatch() {
    let mut bytes = encode(&sample_message()).unwrap();
    bytes.push(0);
    assert_eq!(decode(&bytes).unwrap_err(), CodecError::CountMismatch);
}

#[test]
fn self_pointer_is_a_compression_loop() {
    let mut b = example_query_bytes(1);
    // replace the question's name with a pointer to itself
    b.truncate(12);
    b.extend_from_slice(&[0xC0, 12, 0, 1, 0, 1]);
    assert_eq!(decode(&b).unwrap_err(), CodecError::CompressionLoop);
    assert_eq!(decode_name(&b, 12).unwrap_err(), CodecError::CompressionLoop);
}

#[test]
fn two_pointers_in_a_cycle_are_a_compression_loop() {
    let b = vec![0, 0, 0xC0, 4, 0xC0, 2];
    assert_eq!(decode_name(&b, 2).unwrap_err(), CodecError::CompressionLoop);
}

#[test]
fn pointer_is_followed_and_name_ends_after_it() {
    let b = vec![3, b'c', b'o', b'm', 0, 3, b'w', b'w', b'w', 0xC0, 0, 9];
    let (n, end) = decode_name(&b, 5).unwrap();
    assert_eq!(labels(&n), vec![b"www".to_vec(), b"com".to_vec()]);
    assert_eq!(end, 11);
}

#[test]
fn reserved_label_kind_is_an_invalid_name() {
    let b = vec![0x40, 0];
    assert_eq!(decode_name(&b, 0).unwrap_err(), CodecError::InvalidName);
}

#[test]
fn answer_with_one_a_record_gives_its_address() {
    let r = reply(0x4242, 0x8180, &[(1, 300, vec![93, 184, 216, 34])]);
    assert_eq!(interpret(0x4242, &r).unwrap(), vec![[93, 184, 216, 34]]);
}

#[test]
fn other_record_types_are_skipped() {
    let r = reply(9, 0x8180, &[(5, 60, vec![1, 2]), (1, 60, vec![10, 0, 0, 1]), (1, 60, vec![10, 0, 0, 2])]);
    assert_eq!(interpret(9, &r).unwrap(), vec![[10, 0, 0, 1], [10, 0, 0, 2]]);
}

#[test]
fn reply_with_another_id_is_an_id_mismatch() {
    let r = reply(0x1111, 0x8180, &[(1, 300, vec![93, 184, 216, 34])]);
    assert_eq!(interpret(0x2222, &r).unwrap_err(), ResolveError::IdMismatch);
}

#[test]
fn nxdomain_without_answers_is_a_server_error() {
    let r = reply(5, 0x8183, &[]);
    assert_eq!(interpret(5, &r).unwrap_err(), ResolveError::ServerError(RCODE_NXDOMAIN));
}

#[test]
fn no_answer_and_no_error_is_an_empty_list() {
    let r = reply(5, 0x8180, &[]);
    assert_eq!(interpret(5, &r).unwrap(), Vec::<[u8; 4]>::new());
}

#[test]
fn malformed_reply_reports_the_codec_error() {
    assert_eq!(interpret(5, &[0, 5, 0x81]).unwrap_err(), ResolveError::Truncated);
}

#[test]
fn timeout_is_reported_as_timeout() {
    let req = ResolverRequest { id: 3, server: [127, 0, 0, 1], port: 53, timeout_secs: 3 };
    assert_eq!(complete(&req, Err(TransportError::Timeout)).unwrap_err(), ResolveError::Timeout);
    assert_eq!(complete(&req, Err(TransportError::SendFailed)).unwrap_err(), ResolveError::SendFailed);
    assert_eq!(complete(&req, Err(TransportError::BindFailed)).unwrap_err(), ResolveError::BindFailed);
}

#[test]
fn complete_reads_a_delivered_reply() {
    let req = ResolverRequest { id: 0x4242, server: [1, 1, 1, 1], port: 53, timeout_secs: 3 };
    let r = reply(0x4242, 0x8180, &[(1, 300, vec![93, 184, 216, 34])]);
    assert_eq!(complete(&req, Ok(r)).unwrap(), vec![[93, 184, 216, 34]]);
}

#[test]
fn prepare_encodes_the_query_with_its_own_id() {
    let (req, bytes) = resolve::resolver::prepare(b"example.com", [1, 1, 1, 1], 53, 3).unwrap();
    assert_eq!(bytes, example_query_bytes(req.id));
    assert_eq!(req.server, [1, 1, 1, 1]);
    assert_eq!(req.timeout_secs, 3);
}

#[test]
fn names_compare_without_regard_to_case() {
    assert!(name("Example.COM").eq_ignore_case(&name("example.com")));
    assert!(!name("example.com").eq_ignore_case(&name("example.org")));
    assert!(!name("example.com").eq_ignore_case(&name("www.example.com")));
    assert!(!name("a-b.com").eq_ignore_case(&name("a\rb.com")));
}

#[test]
fn malformed_replies_map_to_resolver_errors() {
    let mut long = reply(5, 0x8180, &[]);
    long.push(0);
    assert_eq!(interpret(5, &long).unwrap_err(), ResolveError::CountMismatch);
    let mut looped = example_query_bytes(5);
    looped.truncate(12);
    looped.extend_from_slice(&[0xC0, 12, 0, 1, 0, 1]);
    assert_eq!(interpret(5, &looped).unwrap_err(), ResolveError::CompressionLoop);
    let reserved = vec![0, 5, 0x81, 0x80, 0, 1, 0, 0, 0, 0, 0, 0, 0x80, 0, 0, 1, 0, 1];
    assert_eq!(interpret(5, &reserved).unwrap_err(), ResolveError::InvalidName);
}
