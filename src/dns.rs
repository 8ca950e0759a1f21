use vstd::prelude::*;
use vstd::string::{StringExecFns, StringSliceAdditionalSpecFns};
use vstd::utf8::*;

use crate::name::{decode_name, lemma_name_end_bounds, encode_name, encodable, name_end, name_text, spec_encode_name, spec_name_at};

verus! {

/// Errors reported while building a query or reading a response.
#[derive(Debug, PartialEq, Eq)]
pub enum DnsError {
    /// A socket could not be bound, or a datagram could not be sent or received.
    Transport(String),
    /// A buffer is shorter than the header, or a name exceeds the wire limits.
    Size,
    /// A field runs past the end of the buffer, a code is invalid, or a pointer chain does not end.
    Malformed,
    /// A resource record carries a type that this library cannot decode.
    UnknownType(u16),
    /// The first answer is of a type that cannot be turned into an address.
    Unsupported,
    /// The response's transaction id differs from the query's.
    Mismatch,
    /// The response holds no answer.
    Empty,
}

/// The fixed twelve-byte header of every DNS message.
#[derive(Debug, Clone, Copy, PartialEq, Eq, Structural)]
pub struct Header {
    pub id: u16,
    pub qr: bool,
    pub opcode: u8,
    pub aa: bool,
    pub tc: bool,
    pub rd: bool,
    pub ra: bool,
    pub z: u8,
    pub rcode: u8,
    pub qdcount: u16,
    pub ancount: u16,
    pub nscount: u16,
    pub arcount: u16,
}

pub open spec fn hi(x: u16) -> u8 {
    (x >> 8) as u8
}

pub open spec fn lo(x: u16) -> u8 {
    x as u8
}

pub open spec fn be16(h: u8, l: u8) -> u16 {
    ((h as u16) << 8u16) | (l as u16)
}

pub open spec fn bit(b: bool, mask: u8) -> u8 {
    if b { mask } else { 0u8 }
}

impl Header {
    /// Every field fits the width that the wire gives it, and the reserved bits are clear.
    pub open spec fn wf(&self) -> bool {
        self.opcode < 16 && self.z == 0 && self.rcode < 16
    }

    /// The third byte: qr, opcode, aa, tc, rd.
    pub open spec fn spec_flags_hi(&self) -> u8 {
        (bit(self.qr, 0x80) | ((self.opcode & 0x0f) << 3u8) | bit(self.aa, 0x04) | bit(self.tc, 0x02) | bit(self.rd, 0x01)) as u8
    }

    /// The fourth byte: ra, z, rcode.
    pub open spec fn spec_flags_lo(&self) -> u8 {
        (bit(self.ra, 0x80) | ((self.z & 0x07) << 4u8) | (self.rcode & 0x0f)) as u8
    }

    /// The header of a standard query that asks for recursion.
    pub open spec fn new_query_spec(id: u16, qdcount: u16) -> Header {
        Header {
            id,
            qr: false,
            opcode: 0,
            aa: false,
            tc: false,
            rd: true,
            ra: false,
            z: 0,
            rcode: 0,
            qdcount,
            ancount: 0,
            nscount: 0,
            arcount: 0,
        }
    }

    /// The wire form of the header.
    pub open spec fn spec_encode(&self) -> Seq<u8> {
        seq![
            hi(self.id), lo(self.id), self.spec_flags_hi(), self.spec_flags_lo(),
            hi(self.qdcount), lo(self.qdcount), hi(self.ancount), lo(self.ancount),
            hi(self.nscount), lo(self.nscount), hi(self.arcount), lo(self.arcount),
        ]
    }
}

/// The header that the first twelve bytes of `b` describe; the reserved bits are read as zero.
pub open spec fn spec_decode_header(b: Seq<u8>) -> Header
    recommends
        b.len() >= 12,
{
    Header {
        id: be16(b[0], b[1]),
        qr: b[2] & 0x80 != 0,
        opcode: (b[2] & 0x78) >> 3u8,
        aa: b[2] & 0x04 != 0,
        tc: b[2] & 0x02 != 0,
        rd: b[2] & 0x01 != 0,
        ra: b[3] & 0x80 != 0,
        z: 0,
        rcode: b[3] & 0x0f,
        qdcount: be16(b[4], b[5]),
        ancount: be16(b[6], b[7]),
        nscount: be16(b[8], b[9]),
        arcount: be16(b[10], b[11]),
    }
}


impl Header {
    /// A header with the given fields and the reserved bits cleared.
    pub fn new(
        id: u16,
        qr: bool,
        opcode: u8,
        aa: bool,
        tc: bool,
        rd: bool,
        ra: bool,
        rcode: u8,
        qdcount: u16,
        ancount: u16,
        nscount: u16,
        arcount: u16,
    ) -> (r: Header)
        ensures
            r == (Header { id, qr, opcode, aa, tc, rd, ra, z: 0, rcode, qdcount, ancount, nscount, arcount }),
    {
        Header { id, qr, opcode, aa, tc, rd, ra, z: 0, rcode, qdcount, ancount, nscount, arcount }
    }

    /// The header of a standard query that asks for recursion and carries `qdcount` questions.
    pub fn new_query(id: u16, qdcount: u16) -> (r: Header)
        ensures
            r == (Header {
                id,
                qr: false,
                opcode: 0,
                aa: false,
                tc: false,
                rd: true,
                ra: false,
                z: 0,
                rcode: 0,
                qdcount,
                ancount: 0,
                nscount: 0,
                arcount: 0,
            }),
            r.wf(),
    {
        Header::new(id, false, 0, false, false, true, false, 0, qdcount, 0, 0, 0)
    }

    /// The twelve bytes of the header on the wire.
    pub fn encode(&self) -> (r: Vec<u8>)
        ensures
            r@ == self.spec_encode(),
    {
        let flags_hi: u8 = (if self.qr { 0x80u8 } else { 0u8 }) | ((self.opcode & 0x0f) << 3u8) | (if self.aa {
            0x04u8
        } else {
            0u8
        }) | (if self.tc { 0x02u8 } else { 0u8 }) | (if self.rd { 0x01u8 } else { 0u8 });
        let flags_lo: u8 = (if self.ra { 0x80u8 } else { 0u8 }) | ((self.z & 0x07) << 4u8) | (self.rcode
            & 0x0f);
        let r = vec![
            (self.id >> 8) as u8,
            self.id as u8,
            flags_hi,
            flags_lo,
            (self.qdcount >> 8) as u8,
            self.qdcount as u8,
            (self.ancount >> 8) as u8,
            self.ancount as u8,
            (self.nscount >> 8) as u8,
            self.nscount as u8,
            (self.arcount >> 8) as u8,
            self.arcount as u8,
        ];
        assert(r@ =~= self.spec_encode());
        r
    }

    /// Reads the header from the first twelve bytes of `b`, with the reserved bits taken as zero;
    /// fails with `Size` when `b` is shorter.
    pub fn decode(b: &[u8]) -> (r: Result<Header, DnsError>)
        ensures
            b@.len() < 12 ==> r == Err::<Header, DnsError>(DnsError::Size),
            b@.len() >= 12 ==> r == Ok::<Header, DnsError>(spec_decode_header(b@)),
    {
        if b.len() < 12 {
            return Err(DnsError::Size);
        }
        Ok(Header {
            id: read_u16(b, 0),
            qr: b[2] & 0x80 != 0,
            opcode: (b[2] & 0x78) >> 3u8,
            aa: b[2] & 0x04 != 0,
            tc: b[2] & 0x02 != 0,
            rd: b[2] & 0x01 != 0,
            ra: b[3] & 0x80 != 0,
            z: 0,
            rcode: b[3] & 0x0f,
            qdcount: read_u16(b, 4),
            ancount: read_u16(b, 6),
            nscount: read_u16(b, 8),
            arcount: read_u16(b, 10),
        })
    }
}

/// The big-endian 16-bit integer at `i`.
pub fn read_u16(b: &[u8], i: usize) -> (r: u16)
    requires
        i + 2 <= b@.len(),
    ensures
        r == be16(b@[i as int], b@[i + 1]),
{
    ((b[i] as u16) << 8u16) | (b[i + 1] as u16)
}

/// The big-endian 32-bit integer at `i`.
pub fn read_u32(b: &[u8], i: usize) -> (r: u32)
    requires
        i + 4 <= b@.len(),
    ensures
        r == be32(b@[i as int], b@[i + 1], b@[i + 2], b@[i + 3]),
{
    ((b[i] as u32) << 24u32) | ((b[i + 1] as u32) << 16u32) | ((b[i + 2] as u32) << 8u32) | (b[i
        + 3] as u32)
}

pub open spec fn be32(a: u8, b: u8, c: u8, d: u8) -> u32 {
    ((a as u32) << 24u32) | ((b as u32) << 16u32) | ((c as u32) << 8u32) | (d as u32)
}

proof fn lemma_be16(x: u16)
    ensures
        be16(hi(x), lo(x)) == x,
{
    assert((((((x >> 8u16) as u8) as u16) << 8u16) | ((x as u8) as u16)) == x) by (bit_vector);
}

proof fn lemma_flags_hi(qr: bool, opcode: u8, aa: bool, tc: bool, rd: bool)
    requires
        opcode < 16,
    ensures
        ({
            let b = (bit(qr, 0x80) | ((opcode & 0x0f) << 3u8) | bit(aa, 0x04) | bit(tc, 0x02) | bit(rd, 0x01)) as u8;
            &&& (b & 0x80 != 0) == qr
            &&& (b & 0x78) >> 3u8 == opcode
            &&& (b & 0x04 != 0) == aa
            &&& (b & 0x02 != 0) == tc
            &&& (b & 0x01 != 0) == rd
        }),
{
    let q = bit(qr, 0x80);
    let a = bit(aa, 0x04);
    let t = bit(tc, 0x02);
    let r = bit(rd, 0x01);
    assert(q == 0x80 || q == 0);
    assert(a == 0x04 || a == 0);
    assert(t == 0x02 || t == 0);
    assert(r == 0x01 || r == 0);
    assert(q == 0x80 || q == 0 ==> a == 0x04 || a == 0 ==> t == 0x02 || t == 0 ==> r == 0x01 || r == 0 ==> opcode < 16 ==> {
        let b = (q | ((opcode & 0x0f) << 3u8) | a | t | r) as u8;
        &&& (b & 0x80 != 0) == (q != 0)
        &&& (b & 0x78) >> 3u8 == opcode
        &&& (b & 0x04 != 0) == (a != 0)
        &&& (b & 0x02 != 0) == (t != 0)
        &&& (b & 0x01 != 0) == (r != 0)
    }) by (bit_vector);
}

proof fn lemma_flags_lo(ra: bool, z: u8, rcode: u8)
    requires
        z < 8,
        rcode < 16,
    ensures
        ({
            let b = (bit(ra, 0x80) | ((z & 0x07) << 4u8) | (rcode & 0x0f)) as u8;
            &&& (b & 0x80 != 0) == ra
            &&& b & 0x0f == rcode
        }),
{
    let q = bit(ra, 0x80);
    assert(q == 0x80 || q == 0);
    assert(q == 0x80 || q == 0 ==> z < 8 ==> rcode < 16 ==> {
        let b = (q | ((z & 0x07) << 4u8) | (rcode & 0x0f)) as u8;
        &&& (b & 0x80 != 0) == (q != 0)
        &&& b & 0x0f == rcode
    }) by (bit_vector);
}

/// Decoding the encoding of a header whose fields fit their widths and whose reserved bits are
/// clear gives the header back.
pub proof fn lemma_header_round_trip(h: Header)
    requires
        h.wf(),
    ensures
        spec_decode_header(h.spec_encode()) == h,
{
    lemma_be16(h.id);
    lemma_be16(h.qdcount);
    lemma_be16(h.ancount);
    lemma_be16(h.nscount);
    lemma_be16(h.arcount);
    lemma_flags_hi(h.qr, h.opcode, h.aa, h.tc, h.rd);
    lemma_flags_lo(h.ra, h.z, h.rcode);
}

/// The record types that a question may ask for and that answers are decoded for.
#[derive(Debug, Clone, Copy, PartialEq, Eq, Structural)]
pub enum QueryType {
    A,
    AAAA,
}

/// The query class; only the Internet class is supported.
#[derive(Debug, Clone, Copy, PartialEq, Eq, Structural)]
pub enum QueryClass {
    IN,
}

/// The payload of an address record.
#[derive(Debug, Clone, Copy, PartialEq, Eq)]
pub enum RData {
    A([u8; 4]),
    AAAA([u8; 16]),
}

impl RData {
    pub open spec fn spec_bytes(&self) -> Seq<u8> {
        match self {
            RData::A(a) => a@,
            RData::AAAA(a) => a@,
        }
    }
}

/// The character of a decimal digit.
pub open spec fn digit_text(d: int) -> Seq<char> {
    if d == 0 {
        "0"@
    } else if d == 1 {
        "1"@
    } else if d == 2 {
        "2"@
    } else if d == 3 {
        "3"@
    } else if d == 4 {
        "4"@
    } else if d == 5 {
        "5"@
    } else if d == 6 {
        "6"@
    } else if d == 7 {
        "7"@
    } else if d == 8 {
        "8"@
    } else {
        "9"@
    }
}

/// The decimal text of `n`, without leading zeros.
pub open spec fn decimal_text(n: nat) -> Seq<char>
    decreases n,
{
    if n < 10 {
        digit_text(n as int)
    } else {
        decimal_text(n / 10) + digit_text((n % 10) as int)
    }
}

/// The bytes in decimal, joined by `sep`.
pub open spec fn joined_decimals(b: Seq<u8>, sep: Seq<char>) -> Seq<char>
    decreases b.len(),
{
    if b.len() == 0 {
        Seq::empty()
    } else if b.len() == 1 {
        decimal_text(b[0] as nat)
    } else {
        joined_decimals(b.drop_last(), sep) + sep + decimal_text(b.last() as nat)
    }
}

fn digit_str(d: u8) -> (r: &'static str)
    requires
        d < 10,
    ensures
        r@ == digit_text(d as int),
{
    match d {
        0 => "0",
        1 => "1",
        2 => "2",
        3 => "3",
        4 => "4",
        5 => "5",
        6 => "6",
        7 => "7",
        8 => "8",
        _ => "9",
    }
}

/// The decimal text of a byte.
pub fn decimal(b: u8) -> (r: String)
    ensures
        r@ == decimal_text(b as nat),
{
    if b < 10 {
        digit_str(b).to_owned()
    } else if b < 100 {
        let mut s = digit_str(b / 10).to_owned();
        s.append(digit_str(b % 10));
        proof {
            let n = b as nat;
            assert(decimal_text(n / 10) == digit_text((n / 10) as int));
            assert(decimal_text(n) == decimal_text(n / 10) + digit_text((n % 10) as int));
        }
        s
    } else {
        let mut s = digit_str(b / 100).to_owned();
        s.append(digit_str((b / 10) % 10));
        s.append(digit_str(b % 10));
        proof {
            let n = b as nat;
            assert(n / 10 / 10 == n / 100);
            assert(decimal_text(n / 100) == digit_text((n / 100) as int));
            assert(decimal_text(n / 10) == decimal_text(n / 10 / 10) + digit_text((n / 10 % 10) as int));
            assert(decimal_text(n) == decimal_text(n / 10) + digit_text((n % 10) as int));
            assert(s@ == decimal_text(n));
        }
        s
    }
}

impl RData {
    /// An IPv4 address in dotted decimal; an IPv6 payload as its sixteen bytes in decimal,
    /// joined by colons.
    pub fn to_string(&self) -> (r: String)
        ensures
            r@ == match self {
                RData::A(a) => joined_decimals(a@, "."@),
                RData::AAAA(a) => joined_decimals(a@, ":"@),
            },
    {
        let (bytes, sep) = match self {
            RData::A(a) => (a.as_slice(), "."),
            RData::AAAA(a) => (a.as_slice(), ":"),
        };
        proof {
            match self {
                RData::A(a) => vstd::array::array_len_matches_n(a),
                RData::AAAA(a) => vstd::array::array_len_matches_n(a),
            }
        }
        let mut s = decimal(bytes[0]);
        let mut i: usize = 1;
        assert(bytes@.take(1).drop_last() =~= Seq::<u8>::empty());
        assert(bytes@.take(1).last() == bytes@[0]);
        while i < bytes.len()
            invariant
                1 <= i <= bytes@.len(),
                s@ == joined_decimals(bytes@.take(i as int), sep@),
            decreases bytes@.len() - i,
        {
            proof {
                assert(bytes@.take(i + 1).drop_last() =~= bytes@.take(i as int));
                assert(bytes@.take(i + 1).last() == bytes@[i as int]);
            }
            s.append(sep);
            let d = decimal(bytes[i]);
            s.append(d.as_str());
            i = i + 1;
        }
        assert(bytes@.take(bytes@.len() as int) =~= bytes@);
        s
    }
}

/// The wire code of a record type.
pub open spec fn type_code(t: QueryType) -> u16 {
    match t {
        QueryType::A => 1,
        QueryType::AAAA => 28,
    }
}

/// The record type that a wire code stands for.
pub open spec fn type_of_code(c: u16) -> Option<QueryType> {
    if c == 1 {
        Some(QueryType::A)
    } else if c == 28 {
        Some(QueryType::AAAA)
    } else {
        None
    }
}

/// One entry of the question section.
#[derive(Debug, PartialEq, Eq)]
pub struct Question {
    pub qname: String,
    pub qtype: QueryType,
    pub qclass: QueryClass,
}

/// A question as a value: its name's characters and its type.
pub struct QuestionModel {
    pub qname: Seq<char>,
    pub qtype: QueryType,
}

impl View for Question {
    type V = QuestionModel;

    open spec fn view(&self) -> QuestionModel {
        QuestionModel { qname: self.qname@, qtype: self.qtype }
    }
}

/// The wire form of a question: its name, its type code, and the Internet class.
pub open spec fn spec_encode_question(q: QuestionModel) -> Seq<u8> {
    spec_encode_name(encode_utf8(q.qname)) + seq![0u8, type_code(q.qtype) as u8, 0u8, 1u8]
}

/// The question at `p`, with the position just past it.
pub open spec fn question_at(buf: Seq<u8>, p: int) -> Result<(QuestionModel, int), DnsError> {
    match (spec_name_at(buf, p), name_end(buf, p)) {
        (Some(labels), Some(q)) => {
            if q + 4 > buf.len() {
                Err(DnsError::Malformed)
            } else {
                match type_of_code(be16(buf[q], buf[q + 1])) {
                    None => Err(DnsError::Malformed),
                    Some(t) => {
                        if be16(buf[q + 2], buf[q + 3]) != 1 {
                            Err(DnsError::Malformed)
                        } else {
                            Ok((QuestionModel { qname: name_text(labels), qtype: t }, q + 4))
                        }
                    },
                }
            }
        },
        _ => Err(DnsError::Malformed),
    }
}

impl Question {
    /// A question of the Internet class for `domain`.
    pub fn new(domain: &str, qtype: QueryType) -> (r: Question)
        ensures
            r.qname@ == domain@,
            r.qtype == qtype,
            r.qclass == QueryClass::IN,
    {
        Question { qname: domain.to_owned(), qtype, qclass: QueryClass::IN }
    }

    /// The wire form of the question; fails with `Size` when the name does not fit the wire.
    pub fn encode(&self) -> (r: Result<Vec<u8>, DnsError>)
        ensures
            match r {
                Ok(v) => encodable(encode_utf8(self.qname@)) && v@ == spec_encode_question(self@),
                Err(e) => !encodable(encode_utf8(self.qname@)) && e == DnsError::Size,
            },
    {
        let mut v = encode_name(self.qname.as_str())?;
        v.push(0u8);
        match self.qtype {
            QueryType::A => v.push(1u8),
            QueryType::AAAA => v.push(28u8),
        }
        v.push(0u8);
        v.push(1u8);
        assert(v@ =~= spec_encode_question(self@));
        Ok(v)
    }

    /// Reads the question at `*cursor`. On success the cursor moves past it; on failure it stays.
    pub fn decode(buf: &[u8], cursor: &mut usize) -> (r: Result<Question, DnsError>)
        ensures
            match question_at(buf@, *old(cursor) as int) {
                Ok((m, e)) => r matches Ok(q) && q@ == m && q.qclass == QueryClass::IN
                    && *final(cursor) == e,
                Err(x) => r == Err::<Question, DnsError>(x) && *final(cursor) == *old(cursor),
            },
    {
        let start = *cursor;
        let mut pos = start;
        let qname = match decode_name(buf, &mut pos) {
            Ok(n) => n,
            Err(e) => {
                return Err(e);
            },
        };
        if pos > buf.len() || 4 > buf.len() - pos {
            return Err(DnsError::Malformed);
        }
        let code = read_u16(buf, pos);
        let qtype = if code == 1 {
            QueryType::A
        } else if code == 28 {
            QueryType::AAAA
        } else {
            return Err(DnsError::Malformed);
        };
        if read_u16(buf, pos + 2) != 1 {
            return Err(DnsError::Malformed);
        }
        *cursor = pos + 4;
        Ok(Question { qname, qtype, qclass: QueryClass::IN })
    }
}

/// One record of the answer, authority or additional section.
#[derive(Debug, PartialEq, Eq)]
pub struct ResourceRecord {
    pub name: String,
    pub query_type: QueryType,
    pub query_class: QueryClass,
    pub ttl: u32,
    pub rdlength: u16,
    pub rdata: RData,
}

/// A record as a value; its payload as bytes.
pub struct RecordModel {
    pub name: Seq<char>,
    pub query_type: QueryType,
    pub ttl: u32,
    pub rdlength: u16,
    pub rdata: Seq<u8>,
}

impl View for ResourceRecord {
    type V = RecordModel;

    open spec fn view(&self) -> RecordModel {
        RecordModel {
            name: self.name@,
            query_type: self.query_type,
            ttl: self.ttl,
            rdlength: self.rdlength,
            rdata: self.rdata.spec_bytes(),
        }
    }
}

/// The payload length that a record type requires.
pub open spec fn rdata_len(t: QueryType) -> int {
    match t {
        QueryType::A => 4,
        QueryType::AAAA => 16,
    }
}

/// The record at `p`, with the position just past it. Its class is read but not checked.
pub open spec fn record_at(buf: Seq<u8>, p: int) -> Result<(RecordModel, int), DnsError> {
    match (spec_name_at(buf, p), name_end(buf, p)) {
        (Some(labels), Some(q)) => {
            if q + 10 > buf.len() {
                Err(DnsError::Malformed)
            } else {
                let code = be16(buf[q], buf[q + 1]);
                let rdlength = be16(buf[q + 8], buf[q + 9]);
                let d = q + 10;
                if d + rdlength > buf.len() {
                    Err(DnsError::Malformed)
                } else {
                    match type_of_code(code) {
                        None => Err(DnsError::UnknownType(code)),
                        Some(t) => {
                            if rdlength != rdata_len(t) {
                                Err(DnsError::Malformed)
                            } else {
                                Ok(
                                    (
                                        RecordModel {
                                            name: name_text(labels),
                                            query_type: t,
                                            ttl: be32(buf[q + 4], buf[q + 5], buf[q + 6], buf[q + 7]),
                                            rdlength,
                                            rdata: buf.subrange(d, d + rdlength),
                                        },
                                        d + rdlength,
                                    ),
                                )
                            }
                        },
                    }
                }
            }
        },
        _ => Err(DnsError::Malformed),
    }
}

/// The position just past the payload of the record at `p`.
pub open spec fn record_span_end(buf: Seq<u8>, p: int) -> int {
    let q = name_end(buf, p)->Some_0;
    q + 10 + be16(buf[q + 8], buf[q + 9])
}

impl ResourceRecord {
    pub fn new(
        name: String,
        query_type: QueryType,
        query_class: QueryClass,
        ttl: u32,
        rdlength: u16,
        rdata: RData,
    ) -> (r: ResourceRecord)
        ensures
            r == (ResourceRecord { name, query_type, query_class, ttl, rdlength, rdata }),
    {
        ResourceRecord { name, query_type, query_class, ttl, rdlength, rdata }
    }

    /// Reads the record at `*cursor`. On success the cursor moves past it. A record of an unknown
    /// type fails with `UnknownType` and the cursor moves past its payload, so that the records
    /// after it stay aligned; on any other failure the cursor stays.
    pub fn decode(buf: &[u8], cursor: &mut usize) -> (r: Result<ResourceRecord, DnsError>)
        ensures
            match record_at(buf@, *old(cursor) as int) {
                Ok((m, e)) => r matches Ok(x) && x@ == m && x.query_class == QueryClass::IN
                    && *final(cursor) == e,
                Err(DnsError::UnknownType(c)) => r == Err::<ResourceRecord, DnsError>(
                    DnsError::UnknownType(c),
                ) && *final(cursor) == record_span_end(buf@, *old(cursor) as int),
                Err(x) => r == Err::<ResourceRecord, DnsError>(x) && *final(cursor) == *old(cursor),
            },
    {
        let start = *cursor;
        let mut pos = start;
        let name = match decode_name(buf, &mut pos) {
            Ok(n) => n,
            Err(e) => {
                return Err(e);
            },
        };
        let len = buf.len();
        if pos > len || 10 > len - pos {
            return Err(DnsError::Malformed);
        }
        let code = read_u16(buf, pos);
        let ttl = read_u32(buf, pos + 4);
        let rdlength = read_u16(buf, pos + 8);
        let d = pos + 10;
        if rdlength as usize > len - d {
            return Err(DnsError::Malformed);
        }
        if code == 1 {
            if rdlength != 4 {
                return Err(DnsError::Malformed);
            }
            let a: [u8; 4] = [buf[d], buf[d + 1], buf[d + 2], buf[d + 3]];
            assert(a@ =~= buf@.subrange(d as int, d + 4));
            *cursor = d + 4;
            Ok(ResourceRecord {
                name,
                query_type: QueryType::A,
                query_class: QueryClass::IN,
                ttl,
                rdlength,
                rdata: RData::A(a),
            })
        } else if code == 28 {
            if rdlength != 16 {
                return Err(DnsError::Malformed);
            }
            let a: [u8; 16] = [
                buf[d],
                buf[d + 1],
                buf[d + 2],
                buf[d + 3],
                buf[d + 4],
                buf[d + 5],
                buf[d + 6],
                buf[d + 7],
                buf[d + 8],
                buf[d + 9],
                buf[d + 10],
                buf[d + 11],
                buf[d + 12],
                buf[d + 13],
                buf[d + 14],
                buf[d + 15],
            ];
            assert(a@ =~= buf@.subrange(d as int, d + 16));
            *cursor = d + 16;
            Ok(ResourceRecord {
                name,
                query_type: QueryType::AAAA,
                query_class: QueryClass::IN,
                ttl,
                rdlength,
                rdata: RData::AAAA(a),
            })
        } else {
            *cursor = d + rdlength as usize;
            Err(DnsError::UnknownType(code))
        }
    }
}

/// `n` questions read one after another from `p`, with the position after the last.
pub open spec fn questions_from(buf: Seq<u8>, p: int, n: nat) -> Result<(Seq<QuestionModel>, int), DnsError>
    decreases n,
{
    if n == 0 {
        Ok((Seq::empty(), p))
    } else {
        match question_at(buf, p) {
            Err(e) => Err(e),
            Ok((q, next)) => match questions_from(buf, next, (n - 1) as nat) {
                Err(e) => Err(e),
                Ok((rest, end)) => Ok((seq![q] + rest, end)),
            },
        }
    }
}

/// `n` records read one after another from `p`, with the position after the last.
pub open spec fn records_from(buf: Seq<u8>, p: int, n: nat) -> Result<(Seq<RecordModel>, int), DnsError>
    decreases n,
{
    if n == 0 {
        Ok((Seq::empty(), p))
    } else {
        match record_at(buf, p) {
            Err(e) => Err(e),
            Ok((r, next)) => match records_from(buf, next, (n - 1) as nat) {
                Err(e) => Err(e),
                Ok((rest, end)) => Ok((seq![r] + rest, end)),
            },
        }
    }
}

/// `r` with `acc` put in front of the items it holds.
pub open spec fn after<T>(acc: Seq<T>, r: Result<(Seq<T>, int), DnsError>) -> Result<(Seq<T>, int), DnsError> {
    match r {
        Ok((items, end)) => Ok((acc + items, end)),
        Err(e) => Err(e),
    }
}

proof fn lemma_records_shape(buf: Seq<u8>, p: int, n: nat)
    ensures
        records_from(buf, p, n) matches Ok((rs, _)) ==> forall|k: int|
            0 <= k < rs.len() ==> (#[trigger] rs[k]).rdata.len() == rdata_len(rs[k].query_type),
    decreases n,
{
    if n > 0 {
        lemma_name_end_bounds(buf, p);
        if let Ok((r, next)) = record_at(buf, p) {
            lemma_records_shape(buf, next, (n - 1) as nat);
            if let Ok((rest, end)) = records_from(buf, next, (n - 1) as nat) {
                let rs = seq![r] + rest;
                assert forall|k: int| 0 <= k < rs.len() implies (#[trigger] rs[k]).rdata.len()
                    == rdata_len(rs[k].query_type) by {
                    if k > 0 {
                        assert(rs[k] == rest[k - 1]);
                    }
                }
            }
        }
    }
}

/// A parsed message as a value.
pub struct ResponseModel {
    pub header: Header,
    pub questions: Seq<QuestionModel>,
    pub answers: Seq<RecordModel>,
    pub authorities: Seq<RecordModel>,
    pub additionals: Seq<RecordModel>,
}

/// The message that `buf` holds: the header, then as many questions, answers, authorities and
/// additionals as it counts, read through one cursor from offset 12. Any failure fails the whole.
pub open spec fn spec_parse_response(buf: Seq<u8>) -> Result<ResponseModel, DnsError> {
    if buf.len() < 12 {
        Err(DnsError::Size)
    } else {
        let h = spec_decode_header(buf);
        match questions_from(buf, 12, h.qdcount as nat) {
            Err(e) => Err(e),
            Ok((qs, q_end)) => match records_from(buf, q_end, h.ancount as nat) {
                Err(e) => Err(e),
                Ok((ans, an_end)) => match records_from(buf, an_end, h.nscount as nat) {
                    Err(e) => Err(e),
                    Ok((ns, ns_end)) => match records_from(buf, ns_end, h.arcount as nat) {
                        Err(e) => Err(e),
                        Ok((ar, _)) => Ok(
                            ResponseModel {
                                header: h,
                                questions: qs,
                                answers: ans,
                                authorities: ns,
                                additionals: ar,
                            },
                        ),
                    },
                },
            },
        }
    }
}

/// A message received from a name server.
#[derive(Debug)]
pub struct Response {
    pub header: Header,
    pub questions: Vec<Question>,
    pub answers: Vec<ResourceRecord>,
    pub authorities: Vec<ResourceRecord>,
    pub additionals: Vec<ResourceRecord>,
}

pub open spec fn question_views(v: Seq<Question>) -> Seq<QuestionModel> {
    v.map_values(|q: Question| q@)
}

pub open spec fn record_views(v: Seq<ResourceRecord>) -> Seq<RecordModel> {
    v.map_values(|r: ResourceRecord| r@)
}

impl View for Response {
    type V = ResponseModel;

    open spec fn view(&self) -> ResponseModel {
        ResponseModel {
            header: self.header,
            questions: question_views(self.questions@),
            answers: record_views(self.answers@),
            authorities: record_views(self.authorities@),
            additionals: record_views(self.additionals@),
        }
    }
}

fn decode_questions(buf: &[u8], cursor: &mut usize, n: u16) -> (r: Result<Vec<Question>, DnsError>)
    ensures
        match questions_from(buf@, *old(cursor) as int, n as nat) {
            Ok((ms, e)) => r matches Ok(v) && question_views(v@) == ms && *final(cursor) == e,
            Err(x) => r == Err::<Vec<Question>, DnsError>(x),
        },
{
    let ghost start = *cursor as int;
    let mut out: Vec<Question> = Vec::new();
    let mut i: u16 = 0;
    while i < n
        invariant
            i <= n,
            start == *old(cursor) as int,
            questions_from(buf@, start, n as nat) == after(
                question_views(out@),
                questions_from(buf@, *cursor as int, (n - i) as nat),
            ),
        decreases n - i,
    {
        let ghost pos = *cursor as int;
        let q = match Question::decode(buf, cursor) {
            Ok(q) => q,
            Err(e) => {
                return Err(e);
            },
        };
        proof {
            let next = *cursor as int;
            assert(question_views(out@.push(q)) =~= question_views(out@).push(q@));
            match questions_from(buf@, next, (n - i - 1) as nat) {
                Ok((rest, end)) => {
                    assert(question_views(out@) + (seq![q@] + rest) =~= question_views(out@).push(q@) + rest);
                },
                Err(_) => {},
            }
        }
        out.push(q);
        i = i + 1;
    }
    assert(question_views(out@) + Seq::<QuestionModel>::empty() =~= question_views(out@));
    Ok(out)
}

fn decode_records(buf: &[u8], cursor: &mut usize, n: u16) -> (r: Result<Vec<ResourceRecord>, DnsError>)
    ensures
        match records_from(buf@, *old(cursor) as int, n as nat) {
            Ok((ms, e)) => r matches Ok(v) && record_views(v@) == ms && *final(cursor) == e,
            Err(x) => r == Err::<Vec<ResourceRecord>, DnsError>(x),
        },
{
    let ghost start = *cursor as int;
    let mut out: Vec<ResourceRecord> = Vec::new();
    let mut i: u16 = 0;
    while i < n
        invariant
            i <= n,
            start == *old(cursor) as int,
            records_from(buf@, start, n as nat) == after(
                record_views(out@),
                records_from(buf@, *cursor as int, (n - i) as nat),
            ),
        decreases n - i,
    {
        let ghost pos = *cursor as int;
        let x = match ResourceRecord::decode(buf, cursor) {
            Ok(x) => x,
            Err(e) => {
                return Err(e);
            },
        };
        proof {
            let next = *cursor as int;
            assert(record_views(out@.push(x)) =~= record_views(out@).push(x@));
            match records_from(buf@, next, (n - i - 1) as nat) {
                Ok((rest, end)) => {
                    assert(record_views(out@) + (seq![x@] + rest) =~= record_views(out@).push(x@) + rest);
                },
                Err(_) => {},
            }
        }
        out.push(x);
        i = i + 1;
    }
    assert(record_views(out@) + Seq::<RecordModel>::empty() =~= record_views(out@));
    Ok(out)
}

impl Response {
    /// Parses a whole message; any failure of a part fails the whole.
    pub fn decode(buf: &[u8]) -> (r: Result<Response, DnsError>)
        ensures
            match spec_parse_response(buf@) {
                Ok(m) => r matches Ok(x) && x@ == m,
                Err(e) => r == Err::<Response, DnsError>(e),
            },
    {
        let header = Header::decode(buf)?;
        let mut cursor: usize = 12;
        let questions = decode_questions(buf, &mut cursor, header.qdcount)?;
        let answers = decode_records(buf, &mut cursor, header.ancount)?;
        let authorities = decode_records(buf, &mut cursor, header.nscount)?;
        let additionals = decode_records(buf, &mut cursor, header.arcount)?;
        Ok(Response { header, questions, answers, authorities, additionals })
    }
}

/// An outbound message: a header and its questions.
#[derive(Debug)]
pub struct Query {
    pub header: Header,
    pub questions: Vec<Question>,
}

/// The questions' wire forms one after another.
pub open spec fn questions_wire(qs: Seq<QuestionModel>) -> Seq<u8>
    decreases qs.len(),
{
    if qs.len() == 0 {
        Seq::empty()
    } else {
        questions_wire(qs.drop_last()) + spec_encode_question(qs.last())
    }
}

/// Every question's name fits the wire.
pub open spec fn questions_encodable(qs: Seq<QuestionModel>) -> bool {
    forall|k: int| 0 <= k < qs.len() ==> encodable(encode_utf8(#[trigger] qs[k].qname))
}

impl Query {
    /// A recursive query with transaction id `id` and one question of type A for `host`.
    pub fn new(id: u16, host: &str) -> (r: Query)
        ensures
            r.header == Header::new_query_spec(id, 1),
            r.questions@.len() == 1,
            r.questions@[0]@ == (QuestionModel { qname: host@, qtype: QueryType::A }),
            r.questions@[0].qclass == QueryClass::IN,
    {
        let header = Header::new_query(id, 1);
        let questions = vec![Question::new(host, QueryType::A)];
        Query { header, questions }
    }

    /// The header's wire form followed by each question's; fails with `Size` when a name does not
    /// fit the wire.
    pub fn encode(&self) -> (r: Result<Vec<u8>, DnsError>)
        ensures
            match r {
                Ok(v) => questions_encodable(question_views(self.questions@)) && v@
                    == self.header.spec_encode() + questions_wire(question_views(self.questions@)),
                Err(e) => !questions_encodable(question_views(self.questions@)) && e == DnsError::Size,
            },
    {
        let mut out = self.header.encode();
        let ghost qs = question_views(self.questions@);
        let mut i: usize = 0;
        while i < self.questions.len()
            invariant
                i <= self.questions@.len(),
                qs == question_views(self.questions@),
                out@ == self.header.spec_encode() + questions_wire(qs.take(i as int)),
                questions_encodable(qs.take(i as int)),
            decreases self.questions@.len() - i,
        {
            let q = self.questions[i].encode();
            match q {
                Ok(v) => {
                    proof {
                        assert(qs.take(i + 1).drop_last() =~= qs.take(i as int));
                        assert(qs.take(i + 1).last() == qs[i as int]);
                        assert(questions_encodable(qs.take(i + 1))) by {
                            assert forall|k: int| 0 <= k < i + 1 implies encodable(
                                encode_utf8(#[trigger] qs.take(i + 1)[k].qname),
                            ) by {
                                if k < i {
                                    assert(qs.take(i + 1)[k] == qs.take(i as int)[k]);
                                }
                            }
                        }
                    }
                    let mut j: usize = 0;
                    let ghost base = out@;
                    while j < v.len()
                        invariant
                            j <= v@.len(),
                            out@ == base + v@.take(j as int),
                        decreases v@.len() - j,
                    {
                        proof {
                            assert(v@.take(j + 1) =~= v@.take(j as int).push(v@[j as int]));
                        }
                        out.push(v[j]);
                        j = j + 1;
                    }
                    assert(v@.take(v@.len() as int) =~= v@);
                    assert(out@ =~= self.header.spec_encode() + questions_wire(qs.take(i + 1)));
                },
                Err(e) => {
                    assert(!encodable(encode_utf8(qs[i as int].qname)));
                    return Err(e);
                },
            }
            i = i + 1;
        }
        assert(qs.take(qs.len() as int) =~= qs);
        Ok(out)
    }
}


/// The address that a response to the query with transaction id `id` yields: the message must
/// parse, carry the same id, and hold at least one answer, the first of which must be of type A.
pub open spec fn spec_answer_address(id: u16, buf: Seq<u8>) -> Result<Seq<u8>, DnsError> {
    match spec_parse_response(buf) {
        Err(e) => Err(e),
        Ok(m) => {
            if m.header.id != id {
                Err(DnsError::Mismatch)
            } else if m.answers.len() == 0 {
                Err(DnsError::Empty)
            } else {
                match m.answers[0].query_type {
                    QueryType::A => Ok(m.answers[0].rdata),
                    QueryType::AAAA => Err(DnsError::Unsupported),
                }
            }
        },
    }
}

/// A well-formed response with the query's transaction id and no answer fails with `Empty`,
/// never with an address.
pub proof fn lemma_empty_answer(id: u16, buf: Seq<u8>)
    requires
        spec_parse_response(buf) is Ok,
        spec_decode_header(buf).id == id,
        spec_decode_header(buf).ancount == 0,
    ensures
        spec_answer_address(id, buf) == Err::<Seq<u8>, DnsError>(DnsError::Empty),
{
}

/// A well-formed response whose transaction id differs from the query's fails with `Mismatch`.
pub proof fn lemma_id_mismatch(id: u16, buf: Seq<u8>)
    requires
        spec_parse_response(buf) is Ok,
        spec_decode_header(buf).id != id,
    ensures
        spec_answer_address(id, buf) == Err::<Seq<u8>, DnsError>(DnsError::Mismatch),
{
}

/// A well-formed response with the query's transaction id whose first answer is of type AAAA
/// fails with `Unsupported`.
pub proof fn lemma_aaaa_unsupported(id: u16, buf: Seq<u8>)
    requires
        spec_parse_response(buf) matches Ok(m) && m.header.id == id && m.answers.len() > 0
            && m.answers[0].query_type == QueryType::AAAA,
    ensures
        spec_answer_address(id, buf) == Err::<Seq<u8>, DnsError>(DnsError::Unsupported),
{
}

/// Resolves host names through a public name server; one resolution per call, no state kept.
#[derive(Debug, Clone, Copy)]
pub struct Resolver {
    pub server: [u8; 4],
    pub port: u16,
}

impl Resolver {
    /// A resolver that asks the public server at 8.8.8.8, port 53.
    pub fn new() -> (r: Resolver)
        ensures
            r.server@ == seq![8u8, 8u8, 8u8, 8u8],
            r.port == 53,
    {
        let r = Resolver { server: [8u8, 8u8, 8u8, 8u8], port: 53 };
        assert(r.server@ =~= seq![8u8, 8u8, 8u8, 8u8]);
        r
    }

    /// The datagram that asks for the A record of `host` under transaction id `id`; fails with
    /// `Size` when `host` does not fit the wire.
    pub fn query(&self, id: u16, host: &str) -> (r: Result<Vec<u8>, DnsError>)
        ensures
            match r {
                Ok(v) => encodable(host.spec_bytes()) && v@ == Header::new_query_spec(id, 1).spec_encode()
                    + spec_encode_question(QuestionModel { qname: host@, qtype: QueryType::A }),
                Err(e) => !encodable(host.spec_bytes()) && e == DnsError::Size,
            },
    {
        let query = Query::new(id, host);
        proof {
            let qs = question_views(query.questions@);
            assert(qs.drop_last() =~= Seq::<QuestionModel>::empty());
            assert(questions_wire(qs.drop_last()) =~= Seq::<u8>::empty());
            assert(qs.last() == qs[0]);
            assert(questions_wire(qs) =~= spec_encode_question(qs[0]));
        }
        query.encode()
    }

    /// The IPv4 address carried by the datagram `response` received for the query with
    /// transaction id `id`: fails with the parse error, `Mismatch`, `Empty` or `Unsupported`.
    pub fn address(&self, id: u16, response: &[u8]) -> (r: Result<[u8; 4], DnsError>)
        ensures
            match spec_answer_address(id, response@) {
                Ok(a) => r matches Ok(x) && x@ == a,
                Err(e) => r == Err::<[u8; 4], DnsError>(e),
            },
    {
        let msg = Response::decode(response)?;
        if msg.header.id != id {
            return Err(DnsError::Mismatch);
        }
        if msg.answers.len() == 0 {
            return Err(DnsError::Empty);
        }
        let first = &msg.answers[0];
        proof {
            let h = spec_decode_header(response@);
            if let Ok((_, q_end)) = questions_from(response@, 12, h.qdcount as nat) {
                lemma_records_shape(response@, q_end, h.ancount as nat);
            }
        }
        assert(record_views(msg.answers@)[0] == first@);
        assert(spec_parse_response(response@) == Ok::<ResponseModel, DnsError>(msg@));
        match first.rdata {
            RData::A(v) => {
                proof {
                    vstd::array::array_len_matches_n(&v);
                }
                if first.query_type == QueryType::A {
                    Ok(v)
                } else {
                    Err(DnsError::Unsupported)
                }
            },
            RData::AAAA(w) => {
                proof {
                    vstd::array::array_len_matches_n(&w);
                }
                Err(DnsError::Unsupported)
            },
        }
    }
}

} // verus!
