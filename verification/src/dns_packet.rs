//! DNS message model and wire codec: header, question, resource record
//! and whole message, each with its exact wire image.

use vstd::prelude::*;

use crate::buffer::{be_bytes, be_val, splice, BufferBuilder, BufferParser};
use crate::errors::DnsError;

verus! {

pub const QUERY_RESPONSE: u8 = 0x80;

pub const OP_CODE: u8 = 0x78;

pub const AUTHORITATIVE_ANSWER: u8 = 0x04;

pub const TRUNCATED_MESSAGE: u8 = 0x02;

pub const RECURSION_DESIRED: u8 = 0x01;

pub const RECURSION_AVAILABLE: u8 = 0x80;

pub const RESERVED: u8 = 0x70;

pub const RESPONSE_CODE: u8 = 0x0F;

/// The 4-bit response code of a message header.
#[derive(Copy, Clone, Debug, PartialEq, Eq, Structural)]
pub enum ResponseCode {
    NOERROR,
    FORMERR,
    SERVFAIL,
    NXDOMAIN,
    NOTIMP,
    REFUSED,
    YXDOMAIN,
    XRRSET,
    NOTAUTH,
    NOTZONE,
    UNKNOWN,
}

impl ResponseCode {
    pub open spec fn spec_from(num: u8) -> ResponseCode {
        match num {
            0u8 => ResponseCode::NOERROR,
            1u8 => ResponseCode::FORMERR,
            2u8 => ResponseCode::SERVFAIL,
            3u8 => ResponseCode::NXDOMAIN,
            4u8 => ResponseCode::NOTIMP,
            5u8 => ResponseCode::REFUSED,
            6u8 => ResponseCode::YXDOMAIN,
            7u8 => ResponseCode::XRRSET,
            8u8 => ResponseCode::NOTAUTH,
            9u8 => ResponseCode::NOTZONE,
            _ => ResponseCode::UNKNOWN,
        }
    }

    pub fn from(num: u8) -> (r: ResponseCode)
        ensures
            r == ResponseCode::spec_from(num),
    {
        match num {
            0 => ResponseCode::NOERROR,
            1 => ResponseCode::FORMERR,
            2 => ResponseCode::SERVFAIL,
            3 => ResponseCode::NXDOMAIN,
            4 => ResponseCode::NOTIMP,
            5 => ResponseCode::REFUSED,
            6 => ResponseCode::YXDOMAIN,
            7 => ResponseCode::XRRSET,
            8 => ResponseCode::NOTAUTH,
            9 => ResponseCode::NOTZONE,
            _ => ResponseCode::UNKNOWN,
        }
    }

    /// The wire nibble of this code; an unknown code goes back out as
    /// `SERVFAIL`.
    pub open spec fn spec_to_u8(self) -> u8 {
        match self {
            ResponseCode::NOERROR => 0u8,
            ResponseCode::FORMERR => 1u8,
            ResponseCode::SERVFAIL => 2u8,
            ResponseCode::NXDOMAIN => 3u8,
            ResponseCode::NOTIMP => 4u8,
            ResponseCode::REFUSED => 5u8,
            ResponseCode::YXDOMAIN => 6u8,
            ResponseCode::XRRSET => 7u8,
            ResponseCode::NOTAUTH => 8u8,
            ResponseCode::NOTZONE => 9u8,
            ResponseCode::UNKNOWN => 2u8,
        }
    }

    pub fn to_u8(&self) -> (r: u8)
        ensures
            r == self.spec_to_u8(),
    {
        match self {
            ResponseCode::NOERROR => 0,
            ResponseCode::FORMERR => 1,
            ResponseCode::SERVFAIL => 2,
            ResponseCode::NXDOMAIN => 3,
            ResponseCode::NOTIMP => 4,
            ResponseCode::REFUSED => 5,
            ResponseCode::YXDOMAIN => 6,
            ResponseCode::XRRSET => 7,
            ResponseCode::NOTAUTH => 8,
            ResponseCode::NOTZONE => 9,
            ResponseCode::UNKNOWN => 2,
        }
    }
}

/// A record or question type; codes outside the supported five are
/// carried through numerically.
#[derive(Debug, PartialEq, Eq, Clone, Copy, Hash, Structural)]
pub enum QueryType {
    UNKOWN(u16),
    A,
    NS,
    CNAME,
    MX,
    AAAA,
}

impl QueryType {
    pub open spec fn spec_from(num: u16) -> QueryType {
        match num {
            1u16 => QueryType::A,
            2u16 => QueryType::NS,
            5u16 => QueryType::CNAME,
            15u16 => QueryType::MX,
            28u16 => QueryType::AAAA,
            _ => QueryType::UNKOWN(num),
        }
    }

    pub fn from(num: u16) -> (r: QueryType)
        ensures
            r == QueryType::spec_from(num),
    {
        match num {
            1 => QueryType::A,
            2 => QueryType::NS,
            5 => QueryType::CNAME,
            15 => QueryType::MX,
            28 => QueryType::AAAA,
            _ => QueryType::UNKOWN(num),
        }
    }

    pub open spec fn spec_to_u16(self) -> u16 {
        match self {
            QueryType::A => 1u16,
            QueryType::NS => 2u16,
            QueryType::CNAME => 5u16,
            QueryType::MX => 15u16,
            QueryType::AAAA => 28u16,
            QueryType::UNKOWN(x) => x,
        }
    }

    pub fn to_u16(&self) -> (r: u16)
        ensures
            r == self.spec_to_u16(),
    {
        match self {
            QueryType::A => 1,
            QueryType::NS => 2,
            QueryType::CNAME => 5,
            QueryType::MX => 15,
            QueryType::AAAA => 28,
            QueryType::UNKOWN(x) => *x,
        }
    }

    /// An unknown code never collides with a supported one, as decoding
    /// guarantees.
    pub open spec fn code_consistent(self) -> bool {
        self matches QueryType::UNKOWN(x) ==> QueryType::spec_from(x) == self
    }
}

/// The 4-bit operation code of a message header.
#[derive(Copy, Clone, Debug, PartialEq, Eq, Structural)]
pub enum OperationCode {
    Query,
    IQuery,
    Status,
    Notify,
    Update,
    Unkown,
}

impl OperationCode {
    pub open spec fn spec_from(num: u8) -> OperationCode {
        match num {
            0u8 => OperationCode::Query,
            1u8 => OperationCode::IQuery,
            2u8 => OperationCode::Status,
            4u8 => OperationCode::Notify,
            5u8 => OperationCode::Update,
            _ => OperationCode::Unkown,
        }
    }

    pub fn from(num: u8) -> (r: OperationCode)
        ensures
            r == OperationCode::spec_from(num),
    {
        match num {
            0 => OperationCode::Query,
            1 => OperationCode::IQuery,
            2 => OperationCode::Status,
            4 => OperationCode::Notify,
            5 => OperationCode::Update,
            _ => OperationCode::Unkown,
        }
    }

    pub open spec fn spec_to_u8(self) -> u8 {
        match self {
            OperationCode::Query => 0u8,
            OperationCode::IQuery => 1u8,
            OperationCode::Status => 2u8,
            OperationCode::Notify => 4u8,
            OperationCode::Update => 5u8,
            OperationCode::Unkown => 6u8,
        }
    }

    pub fn to_u8(&self) -> (r: u8)
        ensures
            r == self.spec_to_u8(),
    {
        match self {
            OperationCode::Query => 0,
            OperationCode::IQuery => 1,
            OperationCode::Status => 2,
            OperationCode::Notify => 4,
            OperationCode::Update => 5,
            OperationCode::Unkown => 6,
        }
    }
}

/// The fixed 12-byte message header: id, two flag bytes, four section
/// counts.
#[derive(PartialEq, Eq, Clone, Copy, Debug, Structural)]
pub struct Header {
    pub id: u16,
    pub flags1: u8,
    pub flags2: u8,
    pub question_count: u16,
    pub answer_count: u16,
    pub authoritiy_count: u16,
    pub additional_count: u16,
}

/// The header a fresh message starts from: zero counts, the given
/// recursion-desired and response bits, and the given response code.
pub open spec fn spec_header_new(
    id: u16,
    recursion: bool,
    is_response: bool,
    response_code: ResponseCode,
) -> Header {
    Header {
        id,
        flags1: (if is_response {
            QUERY_RESPONSE
        } else {
            0u8
        }) | (if recursion {
            RECURSION_DESIRED
        } else {
            0u8
        }),
        flags2: response_code.spec_to_u8(),
        question_count: 0,
        answer_count: 0,
        authoritiy_count: 0,
        additional_count: 0,
    }
}

/// The 12 wire bytes of a header.
pub open spec fn spec_encode_header(h: Header) -> Seq<u8> {
    be_bytes(h.id as nat, 2) + seq![h.flags1, h.flags2] + be_bytes(h.question_count as nat, 2)
        + be_bytes(h.answer_count as nat, 2) + be_bytes(h.authoritiy_count as nat, 2) + be_bytes(
        h.additional_count as nat,
        2,
    )
}

impl Header {
    /// Header parsed from the 12 bytes at the cursor.
    pub fn from_buf(buf: &mut BufferParser) -> (r: Result<Header, DnsError>)
        ensures
            final(buf).buf_view == old(buf).buf_view,
            old(buf).position + 12 <= old(buf).buf_view@.len() ==> {
                &&& r is Ok
                &&& r->Ok_0 == spec_decode_header(old(buf).buf_view@, old(buf).position as int)
                &&& final(buf).position == old(buf).position + 12
            },
            old(buf).position + 12 > old(buf).buf_view@.len() ==> r == Err::<Header, DnsError>(
                DnsError::EndOfBuffer,
            ),
    {
        let id = buf.read_u16()?;
        let flags1 = buf.read()?;
        let flags2 = buf.read()?;
        let question_count = buf.read_u16()?;
        let answer_count = buf.read_u16()?;
        let authoritiy_count = buf.read_u16()?;
        let additional_count = buf.read_u16()?;
        Ok(
            Header {
                id,
                flags1,
                flags2,
                question_count,
                answer_count,
                authoritiy_count,
                additional_count,
            },
        )
    }

    /// Fresh header with the transaction id, the recursion-desired and
    /// query-response bits, and the response code; everything else zero.
    pub fn new(id: u16, recursion: bool, is_response: bool, response_code: ResponseCode) -> (r:
        Header)
        ensures
            r == spec_header_new(id, recursion, is_response, response_code),
    {
        let mut result = Header {
            id,
            flags1: 0,
            flags2: 0,
            question_count: 0,
            answer_count: 0,
            authoritiy_count: 0,
            additional_count: 0,
        };
        result.set_recursion_desired(recursion);
        result.set_query_response(is_response);
        result.set_response_code(response_code);
        proof {
            if recursion {
                if is_response {
                    assert(((0u8 | 0x01u8) | 0x80u8) == (0x80u8 | 0x01u8)) by (bit_vector);
                } else {
                    assert(((0u8 | 0x01u8) & !0x80u8) == (0u8 | 0x01u8)) by (bit_vector);
                }
            } else {
                if is_response {
                    assert(((0u8 & !0x01u8) | 0x80u8) == (0x80u8 | 0u8)) by (bit_vector);
                } else {
                    assert(((0u8 & !0x01u8) & !0x80u8) == (0u8 | 0u8)) by (bit_vector);
                }
            }
            let rc = response_code.spec_to_u8();
            assert(((0u8 & !0x0Fu8) | rc) == rc) by (bit_vector)
                requires
                    rc <= 9,
            ;
        }
        result
    }

    /// Writes the 12 header bytes at the cursor.
    #[verifier::rlimit(50)]
    pub fn write_to_buf(&self, builder: &mut BufferBuilder) -> (r: Result<(), DnsError>)
        ensures
            final(builder).buf_view@.len() == old(builder).buf_view@.len(),
            old(builder).position + 12 <= old(builder).buf_view@.len() ==> {
                &&& r is Ok
                &&& final(builder).buf_view@ == splice(
                    old(builder).buf_view@,
                    old(builder).position as int,
                    spec_encode_header(*self),
                )
                &&& final(builder).position == old(builder).position + 12
            },
            old(builder).position + 12 > old(builder).buf_view@.len() ==> {
                &&& r == Err::<(), DnsError>(DnsError::EndOfBuffer)
                &&& final(builder).position >= old(builder).position
            },
    {
        let ghost buf0 = builder.buf_view@;
        let ghost pos0 = builder.position as int;
        proof {
            crate::buffer::lemma_be_bytes_len(self.id as nat, 2);
            crate::buffer::lemma_be_bytes_len(self.question_count as nat, 2);
            crate::buffer::lemma_be_bytes_len(self.answer_count as nat, 2);
            crate::buffer::lemma_be_bytes_len(self.authoritiy_count as nat, 2);
            crate::buffer::lemma_be_bytes_len(self.additional_count as nat, 2);
        }
        builder.write_u16(self.id)?;
        proof {
            assert(builder.buf_view@ =~= splice(
                buf0,
                pos0,
                be_bytes(self.id as nat, 2) + seq![self.flags1].take(0),
            ));
        }
        builder.write(self.flags1)?;
        proof {
            assert(builder.buf_view@ =~= splice(
                buf0,
                pos0,
                be_bytes(self.id as nat, 2) + seq![self.flags1],
            ));
        }
        builder.write(self.flags2)?;
        proof {
            assert(builder.buf_view@ =~= splice(
                buf0,
                pos0,
                be_bytes(self.id as nat, 2) + seq![self.flags1, self.flags2],
            ));
        }
        builder.write_u16(self.question_count)?;
        proof {
            assert(builder.buf_view@ =~= splice(
                buf0,
                pos0,
                be_bytes(self.id as nat, 2) + seq![self.flags1, self.flags2] + be_bytes(
                    self.question_count as nat,
                    2,
                ),
            ));
        }
        builder.write_u16(self.answer_count)?;
        proof {
            assert(builder.buf_view@ =~= splice(
                buf0,
                pos0,
                be_bytes(self.id as nat, 2) + seq![self.flags1, self.flags2] + be_bytes(
                    self.question_count as nat,
                    2,
                ) + be_bytes(self.answer_count as nat, 2),
            ));
        }
        builder.write_u16(self.authoritiy_count)?;
        proof {
            assert(builder.buf_view@ =~= splice(
                buf0,
                pos0,
                be_bytes(self.id as nat, 2) + seq![self.flags1, self.flags2] + be_bytes(
                    self.question_count as nat,
                    2,
                ) + be_bytes(self.answer_count as nat, 2) + be_bytes(
                    self.authoritiy_count as nat,
                    2,
                ),
            ));
        }
        builder.write_u16(self.additional_count)?;
        proof {
            assert(builder.buf_view@ =~= splice(buf0, pos0, spec_encode_header(*self)));
        }
        Ok(())
    }

    pub open spec fn spec_query_response(self) -> bool {
        (self.flags1 & QUERY_RESPONSE) >> 7 != 0
    }

    pub fn get_query_response(&self) -> (r: bool)
        ensures
            r == self.spec_query_response(),
    {
        ((self.flags1 & QUERY_RESPONSE) >> 7) != 0
    }

    pub open spec fn spec_op_code(self) -> OperationCode {
        OperationCode::spec_from((self.flags1 & OP_CODE) >> 3)
    }

    pub fn get_op_code(&self) -> (r: OperationCode)
        ensures
            r == self.spec_op_code(),
    {
        OperationCode::from((self.flags1 & OP_CODE) >> 3)
    }

    pub open spec fn spec_authoritative_answer(self) -> bool {
        (self.flags1 & AUTHORITATIVE_ANSWER) >> 2 != 0
    }

    pub fn get_authoritative_answer(&self) -> (r: bool)
        ensures
            r == self.spec_authoritative_answer(),
    {
        ((self.flags1 & AUTHORITATIVE_ANSWER) >> 2) != 0
    }

    pub open spec fn spec_truncated_message(self) -> bool {
        (self.flags1 & TRUNCATED_MESSAGE) >> 1 != 0
    }

    pub fn get_truncated_message(&self) -> (r: bool)
        ensures
            r == self.spec_truncated_message(),
    {
        ((self.flags1 & TRUNCATED_MESSAGE) >> 1) != 0
    }

    pub open spec fn spec_recursion_desired(self) -> bool {
        self.flags1 & RECURSION_DESIRED != 0
    }

    pub fn get_recursion_desired(&self) -> (r: bool)
        ensures
            r == self.spec_recursion_desired(),
    {
        (self.flags1 & RECURSION_DESIRED) != 0
    }

    pub open spec fn spec_recursion_available(self) -> bool {
        (self.flags2 & RECURSION_AVAILABLE) >> 7 != 0
    }

    pub fn get_recursion_available(&self) -> (r: bool)
        ensures
            r == self.spec_recursion_available(),
    {
        ((self.flags2 & RECURSION_AVAILABLE) >> 7) != 0
    }

    pub open spec fn spec_reserved(self) -> u8 {
        (self.flags2 & RESERVED) >> 4
    }

    pub fn get_reserved(&self) -> (r: u8)
        ensures
            r == self.spec_reserved(),
    {
        (self.flags2 & RESERVED) >> 4
    }

    pub open spec fn spec_response_code(self) -> ResponseCode {
        ResponseCode::spec_from(self.flags2 & RESPONSE_CODE)
    }

    pub fn get_response_code(&self) -> (r: ResponseCode)
        ensures
            r == self.spec_response_code(),
    {
        ResponseCode::from(self.flags2 & RESPONSE_CODE)
    }

    pub fn set_query_response(&mut self, value: bool)
        ensures
            *final(self) == (Header {
                flags1: if value {
                    old(self).flags1 | QUERY_RESPONSE
                } else {
                    old(self).flags1 & !QUERY_RESPONSE
                },
                ..*old(self)
            }),
    {
        if value {
            self.flags1 = self.flags1 | QUERY_RESPONSE;
        } else {
            self.flags1 = self.flags1 & !QUERY_RESPONSE;
        }
    }

    pub fn set_op_code(&mut self, value: OperationCode)
        ensures
            *final(self) == (Header {
                flags1: (old(self).flags1 & !OP_CODE) | (value.spec_to_u8() << 3),
                ..*old(self)
            }),
    {
        self.flags1 = self.flags1 & !OP_CODE;
        self.flags1 = self.flags1 | (value.to_u8() << 3);
    }

    pub fn set_authoritative_answer(&mut self, value: bool)
        ensures
            *final(self) == (Header {
                flags1: if value {
                    old(self).flags1 | AUTHORITATIVE_ANSWER
                } else {
                    old(self).flags1 & !AUTHORITATIVE_ANSWER
                },
                ..*old(self)
            }),
    {
        if value {
            self.flags1 = self.flags1 | AUTHORITATIVE_ANSWER;
        } else {
            self.flags1 = self.flags1 & !AUTHORITATIVE_ANSWER;
        }
    }

    pub fn set_truncated_message(&mut self, value: bool)
        ensures
            *final(self) == (Header {
                flags1: if value {
                    old(self).flags1 | TRUNCATED_MESSAGE
                } else {
                    old(self).flags1 & !TRUNCATED_MESSAGE
                },
                ..*old(self)
            }),
    {
        if value {
            self.flags1 = self.flags1 | TRUNCATED_MESSAGE;
        } else {
            self.flags1 = self.flags1 & !TRUNCATED_MESSAGE;
        }
    }

    pub fn set_recursion_desired(&mut self, value: bool)
        ensures
            *final(self) == (Header {
                flags1: if value {
                    old(self).flags1 | RECURSION_DESIRED
                } else {
                    old(self).flags1 & !RECURSION_DESIRED
                },
                ..*old(self)
            }),
    {
        if value {
            self.flags1 = self.flags1 | RECURSION_DESIRED;
        } else {
            self.flags1 = self.flags1 & !RECURSION_DESIRED;
        }
    }

    pub fn set_recursion_available(&mut self, value: bool)
        ensures
            *final(self) == (Header {
                flags2: if value {
                    old(self).flags2 | RECURSION_AVAILABLE
                } else {
                    old(self).flags2 & !RECURSION_AVAILABLE
                },
                ..*old(self)
            }),
    {
        if value {
            self.flags2 = self.flags2 | RECURSION_AVAILABLE;
        } else {
            self.flags2 = self.flags2 & !RECURSION_AVAILABLE;
        }
    }

    pub fn set_reserved(&mut self, value: u8)
        ensures
            *final(self) == (Header {
                flags2: (old(self).flags2 & !RESERVED) | (value << 4),
                ..*old(self)
            }),
    {
        self.flags2 = self.flags2 & !RESERVED;
        self.flags2 = self.flags2 | (value << 4);
    }

    pub fn set_response_code(&mut self, value: ResponseCode)
        ensures
            *final(self) == (Header {
                flags2: (old(self).flags2 & !RESPONSE_CODE) | value.spec_to_u8(),
                ..*old(self)
            }),
    {
        self.flags2 = self.flags2 & !RESPONSE_CODE;
        self.flags2 = self.flags2 | value.to_u8();
    }
}

/// The header whose 12 wire bytes start at `pos`.
pub open spec fn spec_decode_header(buf: Seq<u8>, pos: int) -> Header {
    Header {
        id: be_val(buf.subrange(pos, pos + 2)) as u16,
        flags1: buf[pos + 2],
        flags2: buf[pos + 3],
        question_count: be_val(buf.subrange(pos + 4, pos + 6)) as u16,
        answer_count: be_val(buf.subrange(pos + 6, pos + 8)) as u16,
        authoritiy_count: be_val(buf.subrange(pos + 8, pos + 10)) as u16,
        additional_count: be_val(buf.subrange(pos + 10, pos + 12)) as u16,
    }
}


/// Typed rdata of a resource record, with addresses as plain integers.
#[derive(Debug, Clone, Hash)]
pub enum Record {
    A(u32),
    NS(String),
    CNAME(String),
    MX { priority: u16, host: String },
    AAAA(u128),
    UNKOWN(u16),
}

/// Mathematical image of a `Record`: names as character sequences.
pub enum RecordV {
    A(u32),
    NS(Seq<char>),
    CNAME(Seq<char>),
    MX { priority: u16, host: Seq<char> },
    AAAA(u128),
    UNKOWN(u16),
}

impl View for Record {
    type V = RecordV;

    open spec fn view(&self) -> RecordV {
        match self {
            Record::A(ip) => RecordV::A(*ip),
            Record::NS(name) => RecordV::NS(name@),
            Record::CNAME(name) => RecordV::CNAME(name@),
            Record::MX { priority, host } => RecordV::MX { priority: *priority, host: host@ },
            Record::AAAA(ip) => RecordV::AAAA(*ip),
            Record::UNKOWN(code) => RecordV::UNKOWN(*code),
        }
    }
}

impl PartialEq for Record {
    fn eq(&self, other: &Record) -> (r: bool) {
        match (self, other) {
            (Record::A(a), Record::A(b)) => a == b,
            (Record::NS(a), Record::NS(b)) => a.eq(b),
            (Record::CNAME(a), Record::CNAME(b)) => a.eq(b),
            (
                Record::MX { priority: p1, host: h1 },
                Record::MX { priority: p2, host: h2 },
            ) => p1 == p2 && h1.eq(h2),
            (Record::AAAA(a), Record::AAAA(b)) => a == b,
            (Record::UNKOWN(a), Record::UNKOWN(b)) => a == b,
            _ => false,
        }
    }
}

impl Eq for Record {

}

impl vstd::std_specs::cmp::PartialEqSpecImpl for Record {
    open spec fn obeys_eq_spec() -> bool {
        true
    }

    open spec fn eq_spec(&self, other: &Record) -> bool {
        self@ == other@
    }
}

/// One entry of the question section.
#[derive(Debug, Clone, Hash)]
pub struct Question {
    pub name: String,
    pub query_type: QueryType,
    pub class: u16,
}

/// Mathematical image of a `Question`.
pub struct QuestionV {
    pub name: Seq<char>,
    pub query_type: QueryType,
    pub class: u16,
}

impl View for Question {
    type V = QuestionV;

    open spec fn view(&self) -> QuestionV {
        QuestionV { name: self.name@, query_type: self.query_type, class: self.class }
    }
}

impl PartialEq for Question {
    fn eq(&self, other: &Question) -> (r: bool) {
        self.name.eq(&other.name) && self.query_type == other.query_type && self.class
            == other.class
    }
}

impl Eq for Question {

}

impl vstd::std_specs::cmp::PartialEqSpecImpl for Question {
    open spec fn obeys_eq_spec() -> bool {
        true
    }

    open spec fn eq_spec(&self, other: &Question) -> bool {
        self@ == other@
    }
}

impl QuestionV {
    /// A question the codec can write: an ASCII name.
    pub open spec fn wf(self) -> bool {
        vstd::utf8::is_ascii_chars(self.name)
    }
}

/// Wire form of a question: name, type code, class.
pub open spec fn spec_encode_question(q: QuestionV) -> Seq<u8> {
    crate::buffer::spec_encode_name(q.name) + be_bytes(q.query_type.spec_to_u16() as nat, 2)
        + be_bytes(q.class as nat, 2)
}

/// The question whose wire bytes start at `pos`, with the offset after it.
pub open spec fn spec_decode_question(buf: Seq<u8>, pos: int) -> Result<(QuestionV, int), DnsError> {
    match crate::buffer::spec_read_name_at(buf, pos, 0) {
        Err(e) => Err(e),
        Ok(nb) => {
            let p2 = crate::buffer::spec_name_end(buf, pos);
            if p2 + 4 > buf.len() {
                Err(DnsError::EndOfBuffer)
            } else {
                Ok(
                    (
                        QuestionV {
                            name: crate::buffer::chars_of_bytes(nb),
                            query_type: QueryType::spec_from(
                                be_val(buf.subrange(p2, p2 + 2)) as u16,
                            ),
                            class: be_val(buf.subrange(p2 + 2, p2 + 4)) as u16,
                        },
                        p2 + 4,
                    ),
                )
            }
        },
    }
}

impl Question {
    /// Question parsed at the cursor.
    pub fn from_buf(buf: &mut BufferParser) -> (r: Result<Question, DnsError>)
        ensures
            final(buf).buf_view == old(buf).buf_view,
            (match r {
                Ok(q) => {
                    &&& spec_decode_question(old(buf).buf_view@, old(buf).position as int) is Ok
                    &&& q@ == spec_decode_question(
                        old(buf).buf_view@,
                        old(buf).position as int,
                    )->Ok_0.0
                    &&& final(buf).position == spec_decode_question(
                        old(buf).buf_view@,
                        old(buf).position as int,
                    )->Ok_0.1
                    &&& q@.wf()
                },
                Err(e) => spec_decode_question(old(buf).buf_view@, old(buf).position as int)
                    == Err::<(QuestionV, int), DnsError>(e),
            }),
    {
        let ghost bs = buf.buf_view@;
        let ghost pos0 = buf.position as int;
        let name = buf.read_name()?;
        proof {
            crate::buffer::lemma_read_name_ascii(bs, pos0, 0);
            let nb = crate::buffer::spec_read_name_at(bs, pos0, 0)->Ok_0;
            assert forall|i: int| 0 <= i < name@.len() implies '\0' <= #[trigger] name@[i]
                <= '\u{7f}' by {
                assert(name@[i] == nb[i] as char);
                assert(nb[i] < 128);
            };
        }
        let query_type = QueryType::from(buf.read_u16()?);
        let class = buf.read_u16()?;
        Ok(Question { name, query_type, class })
    }

    /// Writes the question at the cursor.
    pub fn write_to_buf(&self, builder: &mut BufferBuilder) -> (r: Result<(), DnsError>)
        requires
            self@.wf(),
        ensures
            final(builder).buf_view@.len() == old(builder).buf_view@.len(),
            final(builder).position <= final(builder).buf_view@.len() || final(builder).position
                == old(builder).position,
            (match r {
                Ok(()) => {
                    &&& crate::buffer::labels_fit(self.name@)
                    &&& old(builder).position + spec_encode_question(self@).len() <= old(
                        builder,
                    ).buf_view@.len()
                    &&& final(builder).buf_view@ == splice(
                        old(builder).buf_view@,
                        old(builder).position as int,
                        spec_encode_question(self@),
                    )
                    &&& final(builder).position == old(builder).position + spec_encode_question(
                        self@,
                    ).len()
                },
                Err(e) => {
                    &&& (e == DnsError::LabelTooLong && !crate::buffer::labels_fit(self.name@)) || (
                    e == DnsError::EndOfBuffer && old(builder).position + spec_encode_question(
                        self@,
                    ).len() > old(builder).buf_view@.len())
                    &&& !(crate::buffer::labels_fit(self.name@) && old(builder).position
                        + spec_encode_question(self@).len() <= old(builder).buf_view@.len())
                },
            }),
    {
        let ghost buf0 = builder.buf_view@;
        let ghost pos0 = builder.position as int;
        let ghost encn = crate::buffer::spec_encode_name(self.name@);
        builder.write_name(self.name.as_str())?;
        proof {
            crate::buffer::lemma_be_bytes_len(self.query_type.spec_to_u16() as nat, 2);
            crate::buffer::lemma_be_bytes_len(self.class as nat, 2);
        }
        let code = self.query_type.to_u16();
        builder.write_u16(code)?;
        proof {
            assert(builder.buf_view@ =~= splice(
                buf0,
                pos0,
                encn + be_bytes(self.query_type.spec_to_u16() as nat, 2),
            ));
        }
        builder.write_u16(self.class)?;
        proof {
            assert(builder.buf_view@ =~= splice(buf0, pos0, spec_encode_question(self@)));
        }
        Ok(())
    }
}


impl RecordV {
    /// A record the codec can write: ASCII names in its rdata.
    pub open spec fn wf(self) -> bool {
        match self {
            RecordV::NS(n) => vstd::utf8::is_ascii_chars(n),
            RecordV::CNAME(n) => vstd::utf8::is_ascii_chars(n),
            RecordV::MX { priority, host } => vstd::utf8::is_ascii_chars(host),
            _ => true,
        }
    }
}

/// Wire form of a record's RDLENGTH and rdata.  An unknown record has
/// none: it is not re-emitted.
pub open spec fn spec_encode_record(r: RecordV) -> Seq<u8> {
    match r {
        RecordV::A(ip) => be_bytes(4, 2) + be_bytes(ip as nat, 4),
        RecordV::NS(n) => be_bytes(crate::buffer::spec_encode_name(n).len(), 2)
            + crate::buffer::spec_encode_name(n),
        RecordV::CNAME(n) => be_bytes(crate::buffer::spec_encode_name(n).len(), 2)
            + crate::buffer::spec_encode_name(n),
        RecordV::MX { priority, host } => be_bytes(
            crate::buffer::spec_encode_name(host).len() + 2,
            2,
        ) + be_bytes(priority as nat, 2) + crate::buffer::spec_encode_name(host),
        RecordV::AAAA(ip) => be_bytes(16, 2) + be_bytes(ip as nat, 16),
        RecordV::UNKOWN(code) => Seq::empty(),
    }
}

/// The rdata whose wire bytes start at `pos`, read as `qt` with the
/// declared length `len`, and the offset after it.
pub open spec fn spec_decode_record(buf: Seq<u8>, pos: int, len: u16, qt: QueryType) -> Result<
    (RecordV, int),
    DnsError,
> {
    match qt {
        QueryType::A => if pos + 4 > buf.len() {
            Err(DnsError::EndOfBuffer)
        } else {
            Ok((RecordV::A(be_val(buf.subrange(pos, pos + 4)) as u32), pos + 4))
        },
        QueryType::AAAA => if pos + 16 > buf.len() {
            Err(DnsError::EndOfBuffer)
        } else {
            Ok((RecordV::AAAA(be_val(buf.subrange(pos, pos + 16)) as u128), pos + 16))
        },
        QueryType::CNAME => match crate::buffer::spec_read_name_at(buf, pos, 0) {
            Err(e) => Err(e),
            Ok(nb) => Ok(
                (
                    RecordV::CNAME(crate::buffer::chars_of_bytes(nb)),
                    crate::buffer::spec_name_end(buf, pos),
                ),
            ),
        },
        QueryType::NS => match crate::buffer::spec_read_name_at(buf, pos, 0) {
            Err(e) => Err(e),
            Ok(nb) => Ok(
                (
                    RecordV::NS(crate::buffer::chars_of_bytes(nb)),
                    crate::buffer::spec_name_end(buf, pos),
                ),
            ),
        },
        QueryType::MX => if pos + 2 > buf.len() {
            Err(DnsError::EndOfBuffer)
        } else {
            match crate::buffer::spec_read_name_at(buf, pos + 2, 0) {
                Err(e) => Err(e),
                Ok(nb) => Ok(
                    (
                        RecordV::MX {
                            priority: be_val(buf.subrange(pos, pos + 2)) as u16,
                            host: crate::buffer::chars_of_bytes(nb),
                        },
                        crate::buffer::spec_name_end(buf, pos + 2),
                    ),
                ),
            }
        },
        QueryType::UNKOWN(x) => if pos + len > buf.len() {
            Err(DnsError::EndOfBuffer)
        } else {
            Ok((RecordV::UNKOWN(x), pos + len))
        },
    }
}

impl Record {
    /// Rdata parsed at the cursor as `query_type`; an unknown type skips
    /// `len` bytes and keeps its numeric code.
    pub fn from_buf(buf: &mut BufferParser, len: u16, query_type: QueryType) -> (r: Result<
        Record,
        DnsError,
    >)
        ensures
            final(buf).buf_view == old(buf).buf_view,
            (match r {
                Ok(rec) => {
                    &&& spec_decode_record(
                        old(buf).buf_view@,
                        old(buf).position as int,
                        len,
                        query_type,
                    ) is Ok
                    &&& rec@ == spec_decode_record(
                        old(buf).buf_view@,
                        old(buf).position as int,
                        len,
                        query_type,
                    )->Ok_0.0
                    &&& final(buf).position == spec_decode_record(
                        old(buf).buf_view@,
                        old(buf).position as int,
                        len,
                        query_type,
                    )->Ok_0.1
                    &&& rec@.wf()
                },
                Err(e) => spec_decode_record(
                    old(buf).buf_view@,
                    old(buf).position as int,
                    len,
                    query_type,
                ) == Err::<(RecordV, int), DnsError>(e),
            }),
    {
        let ghost bs = buf.buf_view@;
        let result = match query_type {
            QueryType::A => {
                let raw_addr = buf.read_u32()?;
                Record::A(raw_addr)
            },
            QueryType::AAAA => {
                let raw_addr = buf.read_u128()?;
                Record::AAAA(raw_addr)
            },
            QueryType::CNAME => {
                let ghost pos0 = buf.position as int;
                let name = buf.read_name()?;
                proof {
                    Self::lemma_name_ascii_chars(bs, pos0, name@);
                }
                Record::CNAME(name)
            },
            QueryType::NS => {
                let ghost pos0 = buf.position as int;
                let name = buf.read_name()?;
                proof {
                    Self::lemma_name_ascii_chars(bs, pos0, name@);
                }
                Record::NS(name)
            },
            QueryType::MX => {
                let priority = buf.read_u16()?;
                let ghost pos2 = buf.position as int;
                let host = buf.read_name()?;
                proof {
                    Self::lemma_name_ascii_chars(bs, pos2, host@);
                }
                Record::MX { priority, host }
            },
            QueryType::UNKOWN(x) => {
                let p = buf.get_pos();
                if buf.buf_view.len() < len as usize || p > buf.buf_view.len() - len as usize {
                    return Err(DnsError::EndOfBuffer);
                }
                buf.seek(p + len as usize);
                Record::UNKOWN(x)
            },
        };
        Ok(result)
    }

    /// The characters a decoded name hands back are ASCII.
    proof fn lemma_name_ascii_chars(bs: Seq<u8>, pos: int, name: Seq<char>)
        requires
            crate::buffer::spec_read_name_at(bs, pos, 0) is Ok,
            name == crate::buffer::chars_of_bytes(
                crate::buffer::spec_read_name_at(bs, pos, 0)->Ok_0,
            ),
        ensures
            vstd::utf8::is_ascii_chars(name),
    {
        crate::buffer::lemma_read_name_ascii(bs, pos, 0);
        let nb = crate::buffer::spec_read_name_at(bs, pos, 0)->Ok_0;
        assert forall|i: int| 0 <= i < name.len() implies '\0' <= #[trigger] name[i]
            <= '\u{7f}' by {
            assert(name[i] == nb[i] as char);
            assert(nb[i] < 128);
        };
    }

    /// Writes RDLENGTH and rdata at the cursor, backpatching the length
    /// after a name; an unknown record writes nothing.
    #[verifier::rlimit(100)]
    pub fn write_to_buf(&self, builder: &mut BufferBuilder) -> (r: Result<(), DnsError>)
        requires
            self@.wf(),
            old(builder).position <= old(builder).buf_view@.len(),
            old(builder).buf_view@.len() <= 0xFFFF,
        ensures
            final(builder).buf_view@.len() == old(builder).buf_view@.len(),
            final(builder).position <= final(builder).buf_view@.len(),
            (match r {
                Ok(()) => {
                    &&& self@.names_fit()
                    &&& old(builder).position + spec_encode_record(self@).len() <= old(
                        builder,
                    ).buf_view@.len()
                    &&& final(builder).buf_view@ == splice(
                        old(builder).buf_view@,
                        old(builder).position as int,
                        spec_encode_record(self@),
                    )
                    &&& final(builder).position == old(builder).position + spec_encode_record(
                        self@,
                    ).len()
                },
                Err(e) => {
                    &&& (e == DnsError::LabelTooLong && !self@.names_fit()) || (e
                        == DnsError::EndOfBuffer && old(builder).position + spec_encode_record(
                        self@,
                    ).len() > old(builder).buf_view@.len())
                    &&& !(self@.names_fit() && old(builder).position + spec_encode_record(
                        self@,
                    ).len() <= old(builder).buf_view@.len())
                },
            }),
    {
        let ghost buf0 = builder.buf_view@;
        let ghost pos0 = builder.position as int;
        match self {
            Record::A(addr) => {
                proof {
                    crate::buffer::lemma_be_bytes_len(4, 2);
                    crate::buffer::lemma_be_bytes_len(*addr as nat, 4);
                }
                builder.write_u16(4)?;
                builder.write_u32(*addr)?;
                proof {
                    assert(builder.buf_view@ =~= splice(buf0, pos0, spec_encode_record(self@)));
                }
            },
            Record::NS(name) | Record::CNAME(name) => {
                let pos = builder.get_pos();
                proof {
                    crate::buffer::lemma_be_bytes_len(0, 2);
                }
                builder.write_u16(0)?;
                let ghost encn = crate::buffer::spec_encode_name(name@);
                proof {
                    crate::buffer::lemma_be_bytes_len(encn.len(), 2);
                }
                builder.write_name(name.as_str())?;
                let after = builder.get_pos();
                proof {
                    assert(builder.buf_view@ =~= splice(buf0, pos0, be_bytes(0, 2) + encn));
                }
                builder.set_u16((after - (pos + 2)) as u16, pos)?;
                proof {
                    assert((after - (pos + 2)) as u16 as nat == encn.len());
                    let prev = splice(buf0, pos0, be_bytes(0, 2) + encn);
                    let patch = be_bytes(encn.len(), 2);
                    crate::buffer::lemma_splice_index(buf0, pos0, be_bytes(0, 2) + encn);
                    crate::buffer::lemma_splice_index(prev, pos0, patch);
                    crate::buffer::lemma_splice_index(buf0, pos0, patch + encn);
                    assert forall|i: int| 0 <= i < buf0.len() implies splice(prev, pos0, patch)[i]
                        == splice(buf0, pos0, patch + encn)[i] by {
                        if pos0 <= i < pos0 + 2 + encn.len() {
                            assert((patch + encn)[i - pos0] == (if i - pos0 < 2 {
                                patch[i - pos0]
                            } else {
                                encn[i - pos0 - 2]
                            }));
                            assert((be_bytes(0, 2) + encn)[i - pos0] == (if i - pos0 < 2 {
                                be_bytes(0, 2)[i - pos0]
                            } else {
                                encn[i - pos0 - 2]
                            }));
                        }
                    };
                    assert(builder.buf_view@ =~= splice(buf0, pos0, patch + encn));
                    assert(builder.buf_view@ =~= splice(buf0, pos0, spec_encode_record(self@)));
                }
            },
            Record::MX { priority, host } => {
                let pos = builder.get_pos();
                proof {
                    crate::buffer::lemma_be_bytes_len(0, 2);
                    crate::buffer::lemma_be_bytes_len(*priority as nat, 2);
                }
                builder.write_u16(0)?;
                builder.write_u16(*priority)?;
                let ghost ench = crate::buffer::spec_encode_name(host@);
                proof {
                    crate::buffer::lemma_be_bytes_len(ench.len() + 2, 2);
                }
                proof {
                    assert(builder.buf_view@ =~= splice(
                        buf0,
                        pos0,
                        be_bytes(0, 2) + be_bytes(*priority as nat, 2),
                    ));
                }
                builder.write_name(host.as_str())?;
                let after = builder.get_pos();
                proof {
                    assert(builder.buf_view@ =~= splice(
                        buf0,
                        pos0,
                        be_bytes(0, 2) + be_bytes(*priority as nat, 2) + ench,
                    ));
                }
                builder.set_u16((after - (pos + 2)) as u16, pos)?;
                proof {
                    assert((after - (pos + 2)) as u16 as nat == ench.len() + 2);
                    let body = be_bytes(*priority as nat, 2) + ench;
                    let prev = splice(buf0, pos0, be_bytes(0, 2) + body);
                    let patch = be_bytes(ench.len() + 2, 2);
                    assert(be_bytes(0, 2) + be_bytes(*priority as nat, 2) + ench =~= be_bytes(0, 2)
                        + body);
                    crate::buffer::lemma_splice_index(buf0, pos0, be_bytes(0, 2) + body);
                    crate::buffer::lemma_splice_index(prev, pos0, patch);
                    crate::buffer::lemma_splice_index(buf0, pos0, patch + body);
                    assert forall|i: int| 0 <= i < buf0.len() implies splice(prev, pos0, patch)[i]
                        == splice(buf0, pos0, patch + body)[i] by {
                        if pos0 <= i < pos0 + 2 + body.len() {
                            assert((patch + body)[i - pos0] == (if i - pos0 < 2 {
                                patch[i - pos0]
                            } else {
                                body[i - pos0 - 2]
                            }));
                            assert((be_bytes(0, 2) + body)[i - pos0] == (if i - pos0 < 2 {
                                be_bytes(0, 2)[i - pos0]
                            } else {
                                body[i - pos0 - 2]
                            }));
                        }
                    };
                    assert(builder.buf_view@ =~= splice(buf0, pos0, patch + body));
                    assert(patch + body =~= patch + be_bytes(*priority as nat, 2) + ench);
                    assert(builder.buf_view@ =~= splice(buf0, pos0, spec_encode_record(self@)));
                }
            },
            Record::AAAA(addr) => {
                proof {
                    crate::buffer::lemma_be_bytes_len(16, 2);
                    crate::buffer::lemma_be_bytes_len(*addr as nat, 16);
                }
                builder.write_u16(16)?;
                builder.write_u128(*addr)?;
                proof {
                    assert(builder.buf_view@ =~= splice(buf0, pos0, spec_encode_record(self@)));
                }
            },
            Record::UNKOWN(code) => {
                proof {
                    assert(builder.buf_view@ =~= splice(buf0, pos0, spec_encode_record(self@)));
                }
            },
        }
        Ok(())
    }
}

impl RecordV {
    /// Every name in the rdata has labels of at most 63 bytes.
    pub open spec fn names_fit(self) -> bool {
        match self {
            RecordV::NS(n) => crate::buffer::labels_fit(n),
            RecordV::CNAME(n) => crate::buffer::labels_fit(n),
            RecordV::MX { priority, host } => crate::buffer::labels_fit(host),
            _ => true,
        }
    }
}


/// One resource record of the answer, authority or additional section.
#[derive(Debug, Clone, Hash)]
pub struct Answer {
    pub name: String,
    pub query_type: QueryType,
    pub class: u16,
    pub ttl: u32,
    pub len: u16,
    pub record: Record,
}

/// Mathematical image of an `Answer`.
pub struct AnswerV {
    pub name: Seq<char>,
    pub query_type: QueryType,
    pub class: u16,
    pub ttl: u32,
    pub len: u16,
    pub record: RecordV,
}

impl View for Answer {
    type V = AnswerV;

    open spec fn view(&self) -> AnswerV {
        AnswerV {
            name: self.name@,
            query_type: self.query_type,
            class: self.class,
            ttl: self.ttl,
            len: self.len,
            record: self.record@,
        }
    }
}

impl PartialEq for Answer {
    fn eq(&self, other: &Answer) -> (r: bool) {
        self.name.eq(&other.name) && self.query_type == other.query_type && self.class
            == other.class && self.ttl == other.ttl && self.len == other.len && self.record
            == other.record
    }
}

impl Eq for Answer {

}

impl vstd::std_specs::cmp::PartialEqSpecImpl for Answer {
    open spec fn obeys_eq_spec() -> bool {
        true
    }

    open spec fn eq_spec(&self, other: &Answer) -> bool {
        self@ == other@
    }
}

impl AnswerV {
    /// An answer the codec can write: ASCII names throughout.
    pub open spec fn wf(self) -> bool {
        &&& vstd::utf8::is_ascii_chars(self.name)
        &&& self.record.wf()
    }

    /// Every name the record would put on the wire has labels of at most
    /// 63 bytes; an unknown record writes none.
    pub open spec fn names_fit(self) -> bool {
        self.record is UNKOWN || (crate::buffer::labels_fit(self.name) && self.record.names_fit())
    }
}

/// Wire form of a whole resource record.  An unknown record is not
/// re-emitted: its wire form is empty.
pub open spec fn spec_encode_answer(a: AnswerV) -> Seq<u8> {
    if a.record is UNKOWN {
        Seq::empty()
    } else {
        crate::buffer::spec_encode_name(a.name) + be_bytes(a.query_type.spec_to_u16() as nat, 2)
            + be_bytes(a.class as nat, 2) + be_bytes(a.ttl as nat, 4) + spec_encode_record(a.record)
    }
}

/// The resource record whose wire bytes start at `pos`, and the offset
/// after it.
pub open spec fn spec_decode_answer(buf: Seq<u8>, pos: int) -> Result<(AnswerV, int), DnsError> {
    match crate::buffer::spec_read_name_at(buf, pos, 0) {
        Err(e) => Err(e),
        Ok(nb) => {
            let p2 = crate::buffer::spec_name_end(buf, pos);
            if p2 + 10 > buf.len() {
                Err(DnsError::EndOfBuffer)
            } else {
                let qt = QueryType::spec_from(be_val(buf.subrange(p2, p2 + 2)) as u16);
                let class = be_val(buf.subrange(p2 + 2, p2 + 4)) as u16;
                let ttl = be_val(buf.subrange(p2 + 4, p2 + 8)) as u32;
                let rdlen = be_val(buf.subrange(p2 + 8, p2 + 10)) as u16;
                match spec_decode_record(buf, p2 + 10, rdlen, qt) {
                    Err(e) => Err(e),
                    Ok((rv, p3)) => Ok(
                        (
                            AnswerV {
                                name: crate::buffer::chars_of_bytes(nb),
                                query_type: qt,
                                class,
                                ttl,
                                len: rdlen,
                                record: rv,
                            },
                            p3,
                        ),
                    ),
                }
            }
        },
    }
}

impl Answer {
    /// Resource record parsed at the cursor.
    pub fn from_buf(buf: &mut BufferParser) -> (r: Result<Answer, DnsError>)
        ensures
            final(buf).buf_view == old(buf).buf_view,
            (match r {
                Ok(a) => {
                    &&& spec_decode_answer(old(buf).buf_view@, old(buf).position as int) is Ok
                    &&& a@ == spec_decode_answer(
                        old(buf).buf_view@,
                        old(buf).position as int,
                    )->Ok_0.0
                    &&& final(buf).position == spec_decode_answer(
                        old(buf).buf_view@,
                        old(buf).position as int,
                    )->Ok_0.1
                    &&& a@.wf()
                },
                Err(e) => spec_decode_answer(old(buf).buf_view@, old(buf).position as int)
                    == Err::<(AnswerV, int), DnsError>(e),
            }),
    {
        let ghost bs = buf.buf_view@;
        let ghost pos0 = buf.position as int;
        let name_ = buf.read_name()?;
        proof {
            Record::lemma_name_ascii_chars(bs, pos0, name_@);
        }
        let query_type_ = QueryType::from(buf.read_u16()?);
        let query_class_ = buf.read_u16()?;
        let ttl_ = buf.read_u32()?;
        let len_ = buf.read_u16()?;
        let record_ = Record::from_buf(buf, len_, query_type_.clone())?;
        Ok(
            Answer {
                name: name_,
                query_type: query_type_,
                class: query_class_,
                ttl: ttl_,
                len: len_,
                record: record_,
            },
        )
    }

    /// Writes the record at the cursor; an unknown record is skipped.
    pub fn write_to_buf(&self, builder: &mut BufferBuilder) -> (r: Result<(), DnsError>)
        requires
            self@.wf(),
            old(builder).position <= old(builder).buf_view@.len(),
            old(builder).buf_view@.len() <= 0xFFFF,
        ensures
            final(builder).buf_view@.len() == old(builder).buf_view@.len(),
            final(builder).position <= final(builder).buf_view@.len(),
            (match r {
                Ok(()) => {
                    &&& self@.names_fit()
                    &&& old(builder).position + spec_encode_answer(self@).len() <= old(
                        builder,
                    ).buf_view@.len()
                    &&& final(builder).buf_view@ == splice(
                        old(builder).buf_view@,
                        old(builder).position as int,
                        spec_encode_answer(self@),
                    )
                    &&& final(builder).position == old(builder).position + spec_encode_answer(
                        self@,
                    ).len()
                },
                Err(e) => {
                    &&& (e == DnsError::LabelTooLong && !self@.names_fit()) || (e
                        == DnsError::EndOfBuffer && old(builder).position + spec_encode_answer(
                        self@,
                    ).len() > old(builder).buf_view@.len())
                    &&& !(self@.names_fit() && old(builder).position + spec_encode_answer(
                        self@,
                    ).len() <= old(builder).buf_view@.len())
                },
            }),
    {
        let ghost buf0 = builder.buf_view@;
        let ghost pos0 = builder.position as int;
        if let Record::UNKOWN(_) = &self.record {
            proof {
                assert(builder.buf_view@ =~= splice(buf0, pos0, spec_encode_answer(self@)));
            }
            return Ok(());
        }
        let ghost encn = crate::buffer::spec_encode_name(self.name@);
        proof {
            crate::buffer::lemma_be_bytes_len(self.query_type.spec_to_u16() as nat, 2);
            crate::buffer::lemma_be_bytes_len(self.class as nat, 2);
            crate::buffer::lemma_be_bytes_len(self.ttl as nat, 4);
        }
        builder.write_name(self.name.as_str())?;
        let code = self.query_type.to_u16();
        builder.write_u16(code)?;
        proof {
            assert(builder.buf_view@ =~= splice(
                buf0,
                pos0,
                encn + be_bytes(self.query_type.spec_to_u16() as nat, 2),
            ));
        }
        builder.write_u16(self.class)?;
        proof {
            assert(builder.buf_view@ =~= splice(
                buf0,
                pos0,
                encn + be_bytes(self.query_type.spec_to_u16() as nat, 2) + be_bytes(
                    self.class as nat,
                    2,
                ),
            ));
        }
        builder.write_u32(self.ttl)?;
        proof {
            assert(builder.buf_view@ =~= splice(
                buf0,
                pos0,
                encn + be_bytes(self.query_type.spec_to_u16() as nat, 2) + be_bytes(
                    self.class as nat,
                    2,
                ) + be_bytes(self.ttl as nat, 4),
            ));
        }
        self.record.write_to_buf(builder)?;
        proof {
            assert(builder.buf_view@ =~= splice(buf0, pos0, spec_encode_answer(self@)));
        }
        Ok(())
    }
}


/// A whole DNS message: header and the four sections.
#[derive(Debug, Clone)]
pub struct DnsPacket {
    pub header: Header,
    pub questions: Vec<Question>,
    pub answers: Vec<Answer>,
    pub authorities: Vec<Answer>,
    pub additional: Vec<Answer>,
}

/// Mathematical image of a `DnsPacket`.
pub struct DnsPacketV {
    pub header: Header,
    pub questions: Seq<QuestionV>,
    pub answers: Seq<AnswerV>,
    pub authorities: Seq<AnswerV>,
    pub additional: Seq<AnswerV>,
}

impl View for DnsPacket {
    type V = DnsPacketV;

    open spec fn view(&self) -> DnsPacketV {
        DnsPacketV {
            header: self.header,
            questions: self.questions@.map_values(|q: Question| q@),
            answers: self.answers@.map_values(|a: Answer| a@),
            authorities: self.authorities@.map_values(|a: Answer| a@),
            additional: self.additional@.map_values(|a: Answer| a@),
        }
    }
}

impl PartialEq for DnsPacket {
    fn eq(&self, other: &DnsPacket) -> (r: bool) {
        let r = self.header == other.header && self.questions == other.questions && self.answers
            == other.answers && self.authorities == other.authorities && self.additional
            == other.additional;
        proof {
            if r {
                assert(self@.questions =~= other@.questions);
                assert(self@.answers =~= other@.answers);
                assert(self@.authorities =~= other@.authorities);
                assert(self@.additional =~= other@.additional);
            } else {
                if self@ == other@ {
                    assert(self@.questions.len() == other@.questions.len());
                    assert forall|i: int| 0 <= i < self.questions@.len() implies
                        self.questions@[i]@ == other.questions@[i]@ by {
                        assert(self@.questions == other@.questions);
                        assert(self@.questions[i] == self.questions@[i]@);
                        assert(other@.questions[i] == other.questions@[i]@);
                    };
                    assert(self@.answers.len() == other@.answers.len());
                    assert forall|i: int| 0 <= i < self.answers@.len() implies self.answers@[i]@
                        == other.answers@[i]@ by {
                        assert(self@.answers == other@.answers);
                        assert(self@.answers[i] == self.answers@[i]@);
                        assert(other@.answers[i] == other.answers@[i]@);
                    };
                    assert(self@.authorities.len() == other@.authorities.len());
                    assert forall|i: int| 0 <= i < self.authorities@.len() implies
                        self.authorities@[i]@ == other.authorities@[i]@ by {
                        assert(self@.authorities == other@.authorities);
                        assert(self@.authorities[i] == self.authorities@[i]@);
                        assert(other@.authorities[i] == other.authorities@[i]@);
                    };
                    assert(self@.additional.len() == other@.additional.len());
                    assert forall|i: int| 0 <= i < self.additional@.len() implies
                        self.additional@[i]@ == other.additional@[i]@ by {
                        assert(self@.additional == other@.additional);
                        assert(self@.additional[i] == self.additional@[i]@);
                        assert(other@.additional[i] == other.additional@[i]@);
                    };
                }
            }
        }
        r
    }
}

impl Eq for DnsPacket {

}

impl vstd::std_specs::cmp::PartialEqSpecImpl for DnsPacket {
    open spec fn obeys_eq_spec() -> bool {
        true
    }

    open spec fn eq_spec(&self, other: &DnsPacket) -> bool {
        self@ == other@
    }
}

impl DnsPacketV {
    /// A message the codec can write: ASCII names everywhere.
    pub open spec fn wf(self) -> bool {
        &&& forall|i: int| 0 <= i < self.questions.len() ==> (#[trigger] self.questions[i]).wf()
        &&& forall|i: int| 0 <= i < self.answers.len() ==> (#[trigger] self.answers[i]).wf()
        &&& forall|i: int| 0 <= i < self.authorities.len() ==> (#[trigger] self.authorities[i]).wf()
        &&& forall|i: int| 0 <= i < self.additional.len() ==> (#[trigger] self.additional[i]).wf()
    }

    /// Every name the message would put on the wire has labels of at
    /// most 63 bytes.
    pub open spec fn names_fit(self) -> bool {
        &&& forall|i: int|
            0 <= i < self.questions.len() ==> crate::buffer::labels_fit(
                (#[trigger] self.questions[i]).name,
            )
        &&& forall|i: int|
            0 <= i < self.answers.len() ==> (#[trigger] self.answers[i]).names_fit()
        &&& forall|i: int|
            0 <= i < self.authorities.len() ==> (#[trigger] self.authorities[i]).names_fit()
        &&& forall|i: int|
            0 <= i < self.additional.len() ==> (#[trigger] self.additional[i]).names_fit()
    }

    /// Every section is short enough for its 16-bit count.
    pub open spec fn counts_fit(self) -> bool {
        &&& self.questions.len() <= 0xFFFF
        &&& self.answers.len() <= 0xFFFF
        &&& self.authorities.len() <= 0xFFFF
        &&& self.additional.len() <= 0xFFFF
    }

    /// The header as written: counts taken from what the sections emit.
    pub open spec fn counts_header(self) -> Header {
        Header {
            question_count: self.questions.len() as u16,
            answer_count: spec_emitted(self.answers).len() as u16,
            authoritiy_count: spec_emitted(self.authorities).len() as u16,
            additional_count: spec_emitted(self.additional).len() as u16,
            ..self.header
        }
    }
}

/// The records of a section that encoding emits: everything but the
/// unknown ones.
pub open spec fn spec_emitted(s: Seq<AnswerV>) -> Seq<AnswerV>
    decreases s.len(),
{
    if s.len() == 0 {
        Seq::empty()
    } else if s[0].record is UNKOWN {
        spec_emitted(s.drop_first())
    } else {
        seq![s[0]] + spec_emitted(s.drop_first())
    }
}

pub proof fn lemma_emitted_concat(a: Seq<AnswerV>, b: Seq<AnswerV>)
    ensures
        spec_emitted(a + b) == spec_emitted(a) + spec_emitted(b),
        spec_emitted(a).len() <= a.len(),
    decreases a.len(),
{
    if a.len() == 0 {
        assert(a + b =~= b);
        assert(spec_emitted(a) + spec_emitted(b) =~= spec_emitted(b));
    } else {
        assert((a + b).drop_first() =~= a.drop_first() + b);
        lemma_emitted_concat(a.drop_first(), b);
        assert((a + b)[0] == a[0]);
        if a[0].record is UNKOWN {
        } else {
            assert(spec_emitted(a + b) =~= spec_emitted(a) + spec_emitted(b));
        }
    }
}

pub proof fn lemma_emitted_len(a: Seq<AnswerV>)
    ensures
        spec_emitted(a).len() <= a.len(),
    decreases a.len(),
{
    if a.len() > 0 {
        lemma_emitted_len(a.drop_first());
    }
}

/// Wire form of the question section.
pub open spec fn spec_encode_questions(qs: Seq<QuestionV>) -> Seq<u8>
    decreases qs.len(),
{
    if qs.len() == 0 {
        Seq::empty()
    } else {
        spec_encode_question(qs[0]) + spec_encode_questions(qs.drop_first())
    }
}

/// Wire form of a record section.
pub open spec fn spec_encode_answers(s: Seq<AnswerV>) -> Seq<u8>
    decreases s.len(),
{
    if s.len() == 0 {
        Seq::empty()
    } else {
        spec_encode_answer(s[0]) + spec_encode_answers(s.drop_first())
    }
}

pub proof fn lemma_encode_questions_concat(a: Seq<QuestionV>, b: Seq<QuestionV>)
    ensures
        spec_encode_questions(a + b) == spec_encode_questions(a) + spec_encode_questions(b),
    decreases a.len(),
{
    if a.len() == 0 {
        assert(a + b =~= b);
        assert(spec_encode_questions(a) + spec_encode_questions(b) =~= spec_encode_questions(b));
    } else {
        assert((a + b).drop_first() =~= a.drop_first() + b);
        lemma_encode_questions_concat(a.drop_first(), b);
        assert((a + b)[0] == a[0]);
        assert(spec_encode_questions(a + b) =~= spec_encode_questions(a) + spec_encode_questions(
            b,
        ));
    }
}

pub proof fn lemma_encode_answers_concat(a: Seq<AnswerV>, b: Seq<AnswerV>)
    ensures
        spec_encode_answers(a + b) == spec_encode_answers(a) + spec_encode_answers(b),
    decreases a.len(),
{
    if a.len() == 0 {
        assert(a + b =~= b);
        assert(spec_encode_answers(a) + spec_encode_answers(b) =~= spec_encode_answers(b));
    } else {
        assert((a + b).drop_first() =~= a.drop_first() + b);
        lemma_encode_answers_concat(a.drop_first(), b);
        assert((a + b)[0] == a[0]);
        assert(spec_encode_answers(a + b) =~= spec_encode_answers(a) + spec_encode_answers(b));
    }
}

/// Wire form of a whole message: header with emitted counts, then the
/// four sections in order.
pub open spec fn spec_encode_packet(p: DnsPacketV) -> Seq<u8> {
    spec_encode_header(p.counts_header()) + spec_encode_questions(p.questions)
        + spec_encode_answers(p.answers) + spec_encode_answers(p.authorities) + spec_encode_answers(
        p.additional,
    )
}

/// `n` questions decoded from `pos` on, with the offset after them.
pub open spec fn spec_decode_questions(buf: Seq<u8>, pos: int, n: int) -> Result<
    (Seq<QuestionV>, int),
    DnsError,
>
    decreases n,
{
    if n <= 0 {
        Ok((Seq::empty(), pos))
    } else {
        match spec_decode_question(buf, pos) {
            Err(e) => Err(e),
            Ok((q, p2)) => match spec_decode_questions(buf, p2, n - 1) {
                Err(e) => Err(e),
                Ok((rest, p3)) => Ok((seq![q] + rest, p3)),
            },
        }
    }
}

/// `n` records decoded from `pos` on, with the offset after them.
pub open spec fn spec_decode_answers(buf: Seq<u8>, pos: int, n: int) -> Result<
    (Seq<AnswerV>, int),
    DnsError,
>
    decreases n,
{
    if n <= 0 {
        Ok((Seq::empty(), pos))
    } else {
        match spec_decode_answer(buf, pos) {
            Err(e) => Err(e),
            Ok((a, p2)) => match spec_decode_answers(buf, p2, n - 1) {
                Err(e) => Err(e),
                Ok((rest, p3)) => Ok((seq![a] + rest, p3)),
            },
        }
    }
}

pub proof fn lemma_decode_questions_len(buf: Seq<u8>, pos: int, n: int)
    requires
        spec_decode_questions(buf, pos, n) is Ok,
    ensures
        spec_decode_questions(buf, pos, n)->Ok_0.0.len() == if n <= 0 {
            0
        } else {
            n
        },
    decreases n,
{
    if n > 0 {
        let (q, p2) = spec_decode_question(buf, pos)->Ok_0;
        lemma_decode_questions_len(buf, p2, n - 1);
    }
}

pub proof fn lemma_decode_answers_len(buf: Seq<u8>, pos: int, n: int)
    requires
        spec_decode_answers(buf, pos, n) is Ok,
    ensures
        spec_decode_answers(buf, pos, n)->Ok_0.0.len() == if n <= 0 {
            0
        } else {
            n
        },
    decreases n,
{
    if n > 0 {
        let (a, p2) = spec_decode_answer(buf, pos)->Ok_0;
        lemma_decode_answers_len(buf, p2, n - 1);
    }
}

/// The message whose wire bytes the whole buffer holds; trailing bytes
/// after the last counted record are ignored.
pub open spec fn spec_decode_packet(bytes: Seq<u8>) -> Result<DnsPacketV, DnsError> {
    if 12 > bytes.len() {
        Err(DnsError::EndOfBuffer)
    } else {
        let h = spec_decode_header(bytes, 0);
        match spec_decode_questions(bytes, 12, h.question_count as int) {
            Err(e) => Err(e),
            Ok((qs, p1)) => match spec_decode_answers(bytes, p1, h.answer_count as int) {
                Err(e) => Err(e),
                Ok((ans, p2)) => match spec_decode_answers(bytes, p2, h.authoritiy_count as int) {
                    Err(e) => Err(e),
                    Ok((auth, p3)) => match spec_decode_answers(
                        bytes,
                        p3,
                        h.additional_count as int,
                    ) {
                        Err(e) => Err(e),
                        Ok((add, p4)) => Ok(
                            DnsPacketV {
                                header: h,
                                questions: qs,
                                answers: ans,
                                authorities: auth,
                                additional: add,
                            },
                        ),
                    },
                },
            },
        }
    }
}


/// Reads `n` questions at the cursor.
fn read_questions(buf: &mut BufferParser, n: u16) -> (r: Result<Vec<Question>, DnsError>)
    ensures
        final(buf).buf_view == old(buf).buf_view,
        (match r {
            Ok(v) => {
                &&& spec_decode_questions(old(buf).buf_view@, old(buf).position as int, n as int)
                    is Ok
                &&& v@.map_values(|q: Question| q@) == spec_decode_questions(
                    old(buf).buf_view@,
                    old(buf).position as int,
                    n as int,
                )->Ok_0.0
                &&& final(buf).position == spec_decode_questions(
                    old(buf).buf_view@,
                    old(buf).position as int,
                    n as int,
                )->Ok_0.1
                &&& forall|i: int| 0 <= i < v@.len() ==> (#[trigger] v@[i])@.wf()
            },
            Err(e) => spec_decode_questions(old(buf).buf_view@, old(buf).position as int, n as int)
                == Err::<(Seq<QuestionV>, int), DnsError>(e),
        }),
{
    let ghost bs = buf.buf_view@;
    let ghost pos0 = buf.position as int;
    let mut out: Vec<Question> = Vec::new();
    let mut i: u16 = 0;
    while i < n
        invariant
            buf.buf_view == old(buf).buf_view,
            bs == buf.buf_view@,
            pos0 == old(buf).position,
            i <= n,
            out@.len() == i,
            forall|j: int| 0 <= j < out@.len() ==> (#[trigger] out@[j])@.wf(),
            (match spec_decode_questions(bs, buf.position as int, n - i) {
                Err(e) => spec_decode_questions(bs, pos0, n as int) == Err::<
                    (Seq<QuestionV>, int),
                    DnsError,
                >(e),
                Ok((rest, p)) => spec_decode_questions(bs, pos0, n as int) == Ok::<
                    (Seq<QuestionV>, int),
                    DnsError,
                >((out@.map_values(|q: Question| q@) + rest, p)),
            }),
        decreases n - i,
    {
        let ghost cur = buf.position as int;
        let q = match Question::from_buf(buf) {
            Ok(q) => q,
            Err(e) => {
                return Err(e);
            },
        };
        let ghost pre = out@;
        out.push(q);
        i = i + 1;
        proof {
            let f = |x: Question| x@;
            assert(out@.map_values(f) =~= pre.map_values(f) + seq![q@]);
            match spec_decode_questions(bs, buf.position as int, n - i) {
                Err(e) => {},
                Ok((rest, p)) => {
                    assert(out@.map_values(f) + rest =~= pre.map_values(f) + (seq![q@] + rest));
                },
            }
        }
    }
    proof {
        assert(out@.map_values(|q: Question| q@) + Seq::<QuestionV>::empty() =~= out@.map_values(
            |q: Question| q@,
        ));
    }
    Ok(out)
}


/// Reads `n` resource records at the cursor.
fn read_answers(buf: &mut BufferParser, n: u16) -> (r: Result<Vec<Answer>, DnsError>)
    ensures
        final(buf).buf_view == old(buf).buf_view,
        (match r {
            Ok(v) => {
                &&& spec_decode_answers(old(buf).buf_view@, old(buf).position as int, n as int)
                    is Ok
                &&& v@.map_values(|a: Answer| a@) == spec_decode_answers(
                    old(buf).buf_view@,
                    old(buf).position as int,
                    n as int,
                )->Ok_0.0
                &&& final(buf).position == spec_decode_answers(
                    old(buf).buf_view@,
                    old(buf).position as int,
                    n as int,
                )->Ok_0.1
                &&& forall|i: int| 0 <= i < v@.len() ==> (#[trigger] v@[i])@.wf()
            },
            Err(e) => spec_decode_answers(old(buf).buf_view@, old(buf).position as int, n as int)
                == Err::<(Seq<AnswerV>, int), DnsError>(e),
        }),
{
    let ghost bs = buf.buf_view@;
    let ghost pos0 = buf.position as int;
    let mut out: Vec<Answer> = Vec::new();
    let mut i: u16 = 0;
    while i < n
        invariant
            buf.buf_view == old(buf).buf_view,
            bs == buf.buf_view@,
            pos0 == old(buf).position,
            i <= n,
            out@.len() == i,
            forall|j: int| 0 <= j < out@.len() ==> (#[trigger] out@[j])@.wf(),
            (match spec_decode_answers(bs, buf.position as int, n - i) {
                Err(e) => spec_decode_answers(bs, pos0, n as int) == Err::<
                    (Seq<AnswerV>, int),
                    DnsError,
                >(e),
                Ok((rest, p)) => spec_decode_answers(bs, pos0, n as int) == Ok::<
                    (Seq<AnswerV>, int),
                    DnsError,
                >((out@.map_values(|a: Answer| a@) + rest, p)),
            }),
        decreases n - i,
    {
        let ghost cur = buf.position as int;
        let a = match Answer::from_buf(buf) {
            Ok(a) => a,
            Err(e) => {
                return Err(e);
            },
        };
        let ghost pre = out@;
        out.push(a);
        i = i + 1;
        proof {
            let f = |x: Answer| x@;
            assert(out@.map_values(f) =~= pre.map_values(f) + seq![a@]);
            match spec_decode_answers(bs, buf.position as int, n - i) {
                Err(e) => {},
                Ok((rest, p)) => {
                    assert(out@.map_values(f) + rest =~= pre.map_values(f) + (seq![a@] + rest));
                },
            }
        }
    }
    proof {
        assert(out@.map_values(|a: Answer| a@) + Seq::<AnswerV>::empty() =~= out@.map_values(
            |a: Answer| a@,
        ));
    }
    Ok(out)
}

impl DnsPacket {
    /// Message decoded from a datagram.  The header counts of the result
    /// equal the lengths of its sections.
    pub fn from_buf(buf: &[u8]) -> (r: Result<DnsPacket, DnsError>)
        ensures
            (match r {
                Ok(p) => {
                    &&& spec_decode_packet(buf@) is Ok
                    &&& p@ == spec_decode_packet(buf@)->Ok_0
                    &&& p@.wf()
                    &&& p.header.question_count == p@.questions.len()
                    &&& p.header.answer_count == p@.answers.len()
                    &&& p.header.authoritiy_count == p@.authorities.len()
                    &&& p.header.additional_count == p@.additional.len()
                },
                Err(e) => spec_decode_packet(buf@) == Err::<DnsPacketV, DnsError>(e),
            }),
    {
        let ghost bs = buf@;
        let mut parser = BufferParser::new(buf);
        let header = Header::from_buf(&mut parser)?;
        let questions = read_questions(&mut parser, header.question_count)?;
        let answers = read_answers(&mut parser, header.answer_count)?;
        let authorities = read_answers(&mut parser, header.authoritiy_count)?;
        let additional = read_answers(&mut parser, header.additional_count)?;
        let dns_packet = DnsPacket { header, questions, answers, authorities, additional };
        proof {
            let (qs, p1) = spec_decode_questions(bs, 12, header.question_count as int)->Ok_0;
            let (ans, p2) = spec_decode_answers(bs, p1, header.answer_count as int)->Ok_0;
            let (auth, p3) = spec_decode_answers(bs, p2, header.authoritiy_count as int)->Ok_0;
            lemma_decode_questions_len(bs, 12, header.question_count as int);
            lemma_decode_answers_len(bs, p1, header.answer_count as int);
            lemma_decode_answers_len(bs, p2, header.authoritiy_count as int);
            lemma_decode_answers_len(bs, p3, header.additional_count as int);
            assert forall|i: int| 0 <= i < dns_packet@.questions.len() implies (
            #[trigger] dns_packet@.questions[i]).wf() by {
                assert(dns_packet@.questions[i] == questions@[i]@);
            };
            assert forall|i: int| 0 <= i < dns_packet@.answers.len() implies (
            #[trigger] dns_packet@.answers[i]).wf() by {
                assert(dns_packet@.answers[i] == answers@[i]@);
            };
            assert forall|i: int| 0 <= i < dns_packet@.authorities.len() implies (
            #[trigger] dns_packet@.authorities[i]).wf() by {
                assert(dns_packet@.authorities[i] == authorities@[i]@);
            };
            assert forall|i: int| 0 <= i < dns_packet@.additional.len() implies (
            #[trigger] dns_packet@.additional[i]).wf() by {
                assert(dns_packet@.additional[i] == additional@[i]@);
            };
        }
        Ok(dns_packet)
    }

    /// Fresh message under the given header, with empty sections.
    pub fn new(header: Header) -> (r: DnsPacket)
        ensures
            r@ == (DnsPacketV {
                header,
                questions: Seq::empty(),
                answers: Seq::empty(),
                authorities: Seq::empty(),
                additional: Seq::empty(),
            }),
    {
        let r = DnsPacket {
            header,
            questions: vec![],
            answers: vec![],
            authorities: vec![],
            additional: vec![],
        };
        proof {
            assert(r@.questions =~= Seq::<QuestionV>::empty());
            assert(r@.answers =~= Seq::<AnswerV>::empty());
            assert(r@.authorities =~= Seq::<AnswerV>::empty());
            assert(r@.additional =~= Seq::<AnswerV>::empty());
        }
        r
    }

    /// Appends a question and counts it in the header.
    pub fn add_question(&mut self, question: Question)
        requires
            old(self).header.question_count < 0xFFFF,
        ensures
            final(self).header == (Header {
                question_count: (old(self).header.question_count + 1) as u16,
                ..old(self).header
            }),
            final(self)@.questions == old(self)@.questions.push(question@),
            final(self)@.answers == old(self)@.answers,
            final(self)@.authorities == old(self)@.authorities,
            final(self)@.additional == old(self)@.additional,
    {
        self.questions.push(question);
        self.header.question_count = self.header.question_count + 1;
        proof {
            assert(self@.questions =~= old(self)@.questions.push(question@));
        }
    }

    /// Replaces the question section and sets its count.
    pub fn set_questions(&mut self, questions: Vec<Question>)
        requires
            questions@.len() <= 0xFFFF,
        ensures
            final(self).header == (Header {
                question_count: questions@.len() as u16,
                ..old(self).header
            }),
            final(self)@.questions == questions@.map_values(|q: Question| q@),
            final(self)@.answers == old(self)@.answers,
            final(self)@.authorities == old(self)@.authorities,
            final(self)@.additional == old(self)@.additional,
    {
        self.questions = questions;
        self.header.question_count = self.questions.len() as u16;
    }

    /// Appends an answer and counts it in the header.
    pub fn add_answer(&mut self, answer: Answer)
        requires
            old(self).header.answer_count < 0xFFFF,
        ensures
            final(self).header == (Header {
                answer_count: (old(self).header.answer_count + 1) as u16,
                ..old(self).header
            }),
            final(self)@.answers == old(self)@.answers.push(answer@),
            final(self)@.questions == old(self)@.questions,
            final(self)@.authorities == old(self)@.authorities,
            final(self)@.additional == old(self)@.additional,
    {
        self.answers.push(answer);
        self.header.answer_count = self.header.answer_count + 1;
        proof {
            assert(self@.answers =~= old(self)@.answers.push(answer@));
        }
    }

    /// Replaces the answer section and sets its count.
    pub fn set_answers(&mut self, answers: Vec<Answer>)
        requires
            answers@.len() <= 0xFFFF,
        ensures
            final(self).header == (Header {
                answer_count: answers@.len() as u16,
                ..old(self).header
            }),
            final(self)@.answers == answers@.map_values(|a: Answer| a@),
            final(self)@.questions == old(self)@.questions,
            final(self)@.authorities == old(self)@.authorities,
            final(self)@.additional == old(self)@.additional,
    {
        self.answers = answers;
        self.header.answer_count = self.answers.len() as u16;
    }

    /// Appends an authority record and counts it in the header.
    pub fn add_authority(&mut self, auth: Answer)
        requires
            old(self).header.authoritiy_count < 0xFFFF,
        ensures
            final(self).header == (Header {
                authoritiy_count: (old(self).header.authoritiy_count + 1) as u16,
                ..old(self).header
            }),
            final(self)@.authorities == old(self)@.authorities.push(auth@),
            final(self)@.questions == old(self)@.questions,
            final(self)@.answers == old(self)@.answers,
            final(self)@.additional == old(self)@.additional,
    {
        self.authorities.push(auth);
        self.header.authoritiy_count = self.header.authoritiy_count + 1;
        proof {
            assert(self@.authorities =~= old(self)@.authorities.push(auth@));
        }
    }

    /// Appends an additional record and counts it in the header.
    pub fn add_additional(&mut self, additional: Answer)
        requires
            old(self).header.additional_count < 0xFFFF,
        ensures
            final(self).header == (Header {
                additional_count: (old(self).header.additional_count + 1) as u16,
                ..old(self).header
            }),
            final(self)@.additional == old(self)@.additional.push(additional@),
            final(self)@.questions == old(self)@.questions,
            final(self)@.answers == old(self)@.answers,
            final(self)@.authorities == old(self)@.authorities,
    {
        self.additional.push(additional);
        self.header.additional_count = self.header.additional_count + 1;
        proof {
            assert(self@.additional =~= old(self)@.additional.push(additional@));
        }
    }
}


/// Number of records of a section that encoding will emit.
fn count_emitted(v: &Vec<Answer>) -> (r: usize)
    requires
        v@.len() <= 0xFFFF,
    ensures
        r == spec_emitted(v@.map_values(|a: Answer| a@)).len(),
        r <= v@.len(),
{
    let ghost views = v@.map_values(|a: Answer| a@);
    let mut c: usize = 0;
    let mut i: usize = 0;
    while i < v.len()
        invariant
            i <= v@.len() <= 0xFFFF,
            views == v@.map_values(|a: Answer| a@),
            c == spec_emitted(views.take(i as int)).len(),
            c <= i,
        decreases v@.len() - i,
    {
        proof {
            reveal_with_fuel(spec_emitted, 3);
            assert(views.take(i + 1) =~= views.take(i as int) + seq![views[i as int]]);
            lemma_emitted_concat(views.take(i as int), seq![views[i as int]]);
            assert(seq![views[i as int]].drop_first() =~= Seq::<AnswerV>::empty());
            assert(views[i as int] == v@[i as int]@);
        }
        if !matches!(v[i].record, Record::UNKOWN(_)) {
            c = c + 1;
        }
        i = i + 1;
    }
    proof {
        assert(views.take(v@.len() as int) =~= views);
    }
    c
}

/// Writes every question of a section at the cursor.
#[verifier::rlimit(60)]
fn write_questions(builder: &mut BufferBuilder, v: &Vec<Question>) -> (r: Result<(), DnsError>)
    requires
        forall|i: int| 0 <= i < v@.len() ==> (#[trigger] v@[i])@.wf(),
        old(builder).position <= old(builder).buf_view@.len(),
        old(builder).buf_view@.len() <= 0xFFFF,
    ensures
        final(builder).buf_view@.len() == old(builder).buf_view@.len(),
        final(builder).position <= final(builder).buf_view@.len() || final(builder).position == old(
            builder,
        ).position,
        (match r {
            Ok(()) => {
                &&& forall|i: int|
                    0 <= i < v@.len() ==> crate::buffer::labels_fit((#[trigger] v@[i])@.name)
                &&& old(builder).position + spec_encode_questions(
                    v@.map_values(|q: Question| q@),
                ).len() <= old(builder).buf_view@.len()
                &&& final(builder).buf_view@ == splice(
                    old(builder).buf_view@,
                    old(builder).position as int,
                    spec_encode_questions(v@.map_values(|q: Question| q@)),
                )
                &&& final(builder).position == old(builder).position + spec_encode_questions(
                    v@.map_values(|q: Question| q@),
                ).len()
            },
            Err(e) => {
                &&& (e == DnsError::LabelTooLong && exists|i: int|
                    0 <= i < v@.len() && !crate::buffer::labels_fit((#[trigger] v@[i])@.name)) || (e
                    == DnsError::EndOfBuffer && old(builder).position + spec_encode_questions(
                    v@.map_values(|q: Question| q@),
                ).len() > old(builder).buf_view@.len())
                &&& !((forall|i: int|
                    0 <= i < v@.len() ==> crate::buffer::labels_fit((#[trigger] v@[i])@.name))
                    && old(builder).position + spec_encode_questions(
                    v@.map_values(|q: Question| q@),
                ).len() <= old(builder).buf_view@.len())
            },
        }),
{
    let ghost views = v@.map_values(|q: Question| q@);
    let ghost buf0 = builder.buf_view@;
    let ghost pos0 = builder.position as int;
    proof {
        assert(spec_encode_questions(views.take(0)) =~= Seq::<u8>::empty());
        assert(splice(buf0, pos0, Seq::<u8>::empty()) =~= buf0);
    }
    let mut i: usize = 0;
    while i < v.len()
        invariant
            i <= v@.len(),
            views == v@.map_values(|q: Question| q@),
            forall|j: int| 0 <= j < v@.len() ==> (#[trigger] v@[j])@.wf(),
            buf0 == old(builder).buf_view@,
            pos0 == old(builder).position,
            buf0.len() <= 0xFFFF,
            builder.buf_view@.len() == buf0.len(),
            builder.buf_view@ == splice(buf0, pos0, spec_encode_questions(views.take(i as int))),
            builder.position == pos0 + spec_encode_questions(views.take(i as int)).len(),
            builder.position <= buf0.len(),
            forall|j: int| 0 <= j < i ==> crate::buffer::labels_fit((#[trigger] views[j]).name),
        decreases v@.len() - i,
    {
        let ghost done = spec_encode_questions(views.take(i as int));
        proof {
            assert(views.skip(i as int)[0] == views[i as int]);
            assert(views.skip(i as int).drop_first() =~= views.skip(i + 1));
            lemma_encode_questions_split(views, i as int);
            assert(views[i as int] == v@[i as int]@);
        }
        match v[i].write_to_buf(builder) {
            Ok(u) => u,
            Err(e) => {
                proof {
                    if e == DnsError::LabelTooLong {
                        assert(!crate::buffer::labels_fit(views[i as int].name));
                        assert(!crate::buffer::labels_fit(v@[i as int]@.name));
                    }
                }
                return Err(e);
            },
        }
        i = i + 1;
        proof {
            assert(views.take(i as int) =~= views.take(i - 1) + seq![views[i - 1]]);
            lemma_encode_questions_concat(views.take(i - 1), seq![views[i - 1]]);
            reveal_with_fuel(spec_encode_questions, 3);
            assert(seq![views[i - 1]].drop_first() =~= Seq::<QuestionV>::empty());
            assert(spec_encode_questions(seq![views[i - 1]]) =~= spec_encode_question(
                views[i - 1],
            ));
            assert(builder.buf_view@ =~= splice(
                buf0,
                pos0,
                spec_encode_questions(views.take(i as int)),
            ));
        }
    }
    proof {
        assert(views.take(v@.len() as int) =~= views);
        assert forall|j: int| 0 <= j < v@.len() implies crate::buffer::labels_fit(
            (#[trigger] v@[j])@.name,
        ) by {
            assert(views[j] == v@[j]@);
        };
    }
    Ok(())
}

/// The encoding of a question section splits at any index.
pub proof fn lemma_encode_questions_split(views: Seq<QuestionV>, i: int)
    requires
        0 <= i < views.len(),
    ensures
        spec_encode_questions(views) == spec_encode_questions(views.take(i)) + spec_encode_question(
            views[i],
        ) + spec_encode_questions(views.skip(i + 1)),
{
    assert(views =~= views.take(i) + (seq![views[i]] + views.skip(i + 1)));
    lemma_encode_questions_concat(views.take(i), seq![views[i]] + views.skip(i + 1));
    lemma_encode_questions_concat(seq![views[i]], views.skip(i + 1));
    reveal_with_fuel(spec_encode_questions, 3);
    assert(seq![views[i]].drop_first() =~= Seq::<QuestionV>::empty());
    assert(spec_encode_questions(seq![views[i]]) =~= spec_encode_question(views[i]));
    assert(spec_encode_questions(views.take(i)) + spec_encode_question(views[i])
        + spec_encode_questions(views.skip(i + 1)) =~= spec_encode_questions(views.take(i)) + (
    spec_encode_question(views[i]) + spec_encode_questions(views.skip(i + 1))));
}

/// The encoding of a record section splits at any index.
pub proof fn lemma_encode_answers_split(views: Seq<AnswerV>, i: int)
    requires
        0 <= i < views.len(),
    ensures
        spec_encode_answers(views) == spec_encode_answers(views.take(i)) + spec_encode_answer(
            views[i],
        ) + spec_encode_answers(views.skip(i + 1)),
{
    assert(views =~= views.take(i) + (seq![views[i]] + views.skip(i + 1)));
    lemma_encode_answers_concat(views.take(i), seq![views[i]] + views.skip(i + 1));
    lemma_encode_answers_concat(seq![views[i]], views.skip(i + 1));
    reveal_with_fuel(spec_encode_answers, 3);
    assert(seq![views[i]].drop_first() =~= Seq::<AnswerV>::empty());
    assert(spec_encode_answers(seq![views[i]]) =~= spec_encode_answer(views[i]));
    assert(spec_encode_answers(views.take(i)) + spec_encode_answer(views[i]) + spec_encode_answers(
        views.skip(i + 1),
    ) =~= spec_encode_answers(views.take(i)) + (spec_encode_answer(views[i])
        + spec_encode_answers(views.skip(i + 1))));
}

/// Writes every record of a section at the cursor, skipping unknown
/// records.
#[verifier::rlimit(60)]
fn write_answer_section(builder: &mut BufferBuilder, v: &Vec<Answer>) -> (r: Result<(), DnsError>)
    requires
        forall|i: int| 0 <= i < v@.len() ==> (#[trigger] v@[i])@.wf(),
        old(builder).position <= old(builder).buf_view@.len(),
        old(builder).buf_view@.len() <= 0xFFFF,
    ensures
        final(builder).buf_view@.len() == old(builder).buf_view@.len(),
        final(builder).position <= final(builder).buf_view@.len() || final(builder).position == old(
            builder,
        ).position,
        (match r {
            Ok(()) => {
                &&& forall|i: int| 0 <= i < v@.len() ==> (#[trigger] v@[i])@.names_fit()
                &&& old(builder).position + spec_encode_answers(
                    v@.map_values(|a: Answer| a@),
                ).len() <= old(builder).buf_view@.len()
                &&& final(builder).buf_view@ == splice(
                    old(builder).buf_view@,
                    old(builder).position as int,
                    spec_encode_answers(v@.map_values(|a: Answer| a@)),
                )
                &&& final(builder).position == old(builder).position + spec_encode_answers(
                    v@.map_values(|a: Answer| a@),
                ).len()
            },
            Err(e) => {
                &&& (e == DnsError::LabelTooLong && exists|i: int|
                    0 <= i < v@.len() && !(#[trigger] v@[i])@.names_fit()) || (e
                    == DnsError::EndOfBuffer && old(builder).position + spec_encode_answers(
                    v@.map_values(|a: Answer| a@),
                ).len() > old(builder).buf_view@.len())
                &&& !((forall|i: int| 0 <= i < v@.len() ==> (#[trigger] v@[i])@.names_fit()) && old(
                    builder,
                ).position + spec_encode_answers(v@.map_values(|a: Answer| a@)).len() <= old(
                    builder,
                ).buf_view@.len())
            },
        }),
{
    let ghost views = v@.map_values(|a: Answer| a@);
    let ghost buf0 = builder.buf_view@;
    let ghost pos0 = builder.position as int;
    proof {
        assert(spec_encode_answers(views.take(0)) =~= Seq::<u8>::empty());
        assert(splice(buf0, pos0, Seq::<u8>::empty()) =~= buf0);
    }
    let mut i: usize = 0;
    while i < v.len()
        invariant
            i <= v@.len(),
            views == v@.map_values(|a: Answer| a@),
            forall|j: int| 0 <= j < v@.len() ==> (#[trigger] v@[j])@.wf(),
            buf0 == old(builder).buf_view@,
            pos0 == old(builder).position,
            buf0.len() <= 0xFFFF,
            builder.buf_view@.len() == buf0.len(),
            builder.buf_view@ == splice(buf0, pos0, spec_encode_answers(views.take(i as int))),
            builder.position == pos0 + spec_encode_answers(views.take(i as int)).len(),
            builder.position <= buf0.len(),
            forall|j: int| 0 <= j < i ==> (#[trigger] views[j]).names_fit(),
        decreases v@.len() - i,
    {
        proof {
            assert(views.skip(i as int)[0] == views[i as int]);
            assert(views.skip(i as int).drop_first() =~= views.skip(i + 1));
            lemma_encode_answers_split(views, i as int);
            assert(views[i as int] == v@[i as int]@);
        }
        match v[i].write_to_buf(builder) {
            Ok(u) => u,
            Err(e) => {
                proof {
                    if e == DnsError::LabelTooLong {
                        assert(!views[i as int].names_fit());
                        assert(!v@[i as int]@.names_fit());
                    }
                }
                return Err(e);
            },
        }
        i = i + 1;
        proof {
            assert(views.take(i as int) =~= views.take(i - 1) + seq![views[i - 1]]);
            lemma_encode_answers_concat(views.take(i - 1), seq![views[i - 1]]);
            reveal_with_fuel(spec_encode_answers, 3);
            assert(seq![views[i - 1]].drop_first() =~= Seq::<AnswerV>::empty());
            assert(spec_encode_answers(seq![views[i - 1]]) =~= spec_encode_answer(views[i - 1]));
            assert(builder.buf_view@ =~= splice(
                buf0,
                pos0,
                spec_encode_answers(views.take(i as int)),
            ));
        }
    }
    proof {
        assert(views.take(v@.len() as int) =~= views);
        assert forall|j: int| 0 <= j < v@.len() implies (#[trigger] v@[j])@.names_fit() by {
            assert(views[j] == v@[j]@);
        };
    }
    Ok(())
}


pub proof fn lemma_encode_header_len(h: Header)
    ensures
        spec_encode_header(h).len() == 12,
{
    crate::buffer::lemma_be_bytes_len(h.id as nat, 2);
    crate::buffer::lemma_be_bytes_len(h.question_count as nat, 2);
    crate::buffer::lemma_be_bytes_len(h.answer_count as nat, 2);
    crate::buffer::lemma_be_bytes_len(h.authoritiy_count as nat, 2);
    crate::buffer::lemma_be_bytes_len(h.additional_count as nat, 2);
}

impl DnsPacket {
    /// Writes the whole message at the cursor: a header whose counts
    /// reflect what the sections emit, then the four sections in order.
    /// Unknown records are not re-emitted.
    #[verifier::rlimit(100)]
    pub fn write_to_buf(&self, builder: &mut BufferBuilder) -> (r: Result<(), DnsError>)
        requires
            self@.wf(),
            self@.counts_fit(),
            old(builder).position <= old(builder).buf_view@.len(),
            old(builder).buf_view@.len() <= 0xFFFF,
        ensures
            final(builder).buf_view@.len() == old(builder).buf_view@.len(),
            (match r {
                Ok(()) => {
                    &&& self@.names_fit()
                    &&& old(builder).position + spec_encode_packet(self@).len() <= old(
                        builder,
                    ).buf_view@.len()
                    &&& final(builder).buf_view@ == splice(
                        old(builder).buf_view@,
                        old(builder).position as int,
                        spec_encode_packet(self@),
                    )
                    &&& final(builder).position == old(builder).position + spec_encode_packet(
                        self@,
                    ).len()
                },
                Err(e) => {
                    &&& (e == DnsError::LabelTooLong && !self@.names_fit()) || (e
                        == DnsError::EndOfBuffer && old(builder).position + spec_encode_packet(
                        self@,
                    ).len() > old(builder).buf_view@.len())
                    &&& !(self@.names_fit() && old(builder).position + spec_encode_packet(
                        self@,
                    ).len() <= old(builder).buf_view@.len())
                },
            }),
    {
        let ghost buf0 = builder.buf_view@;
        let ghost pos0 = builder.position as int;
        let ghost p = self@;
        let ghost ench = spec_encode_header(p.counts_header());
        let ghost encq = spec_encode_questions(p.questions);
        let ghost enca = spec_encode_answers(p.answers);
        let ghost encu = spec_encode_answers(p.authorities);
        let ghost encd = spec_encode_answers(p.additional);
        proof {
            lemma_encode_header_len(p.counts_header());
            lemma_emitted_len(p.answers);
            lemma_emitted_len(p.authorities);
            lemma_emitted_len(p.additional);
        }
        let mut header2 = self.header;
        header2.question_count = self.questions.len() as u16;
        header2.answer_count = count_emitted(&self.answers) as u16;
        header2.authoritiy_count = count_emitted(&self.authorities) as u16;
        header2.additional_count = count_emitted(&self.additional) as u16;
        proof {
            assert(header2 == p.counts_header());
            assert forall|i: int| 0 <= i < self.questions@.len() implies (
            #[trigger] self.questions@[i])@.wf() by {
                assert(p.questions[i] == self.questions@[i]@);
            };
            assert forall|i: int| 0 <= i < self.answers@.len() implies (
            #[trigger] self.answers@[i])@.wf() by {
                assert(p.answers[i] == self.answers@[i]@);
            };
            assert forall|i: int| 0 <= i < self.authorities@.len() implies (
            #[trigger] self.authorities@[i])@.wf() by {
                assert(p.authorities[i] == self.authorities@[i]@);
            };
            assert forall|i: int| 0 <= i < self.additional@.len() implies (
            #[trigger] self.additional@[i])@.wf() by {
                assert(p.additional[i] == self.additional@[i]@);
            };
        }
        match header2.write_to_buf(builder) {
            Ok(u) => u,
            Err(e) => {
                return Err(e);
            },
        }
        match write_questions(builder, &self.questions) {
            Ok(u) => u,
            Err(e) => {
                proof {
                    if e == DnsError::LabelTooLong {
                        let i = choose|i: int|
                            0 <= i < self.questions@.len() && !crate::buffer::labels_fit(
                                (#[trigger] self.questions@[i])@.name,
                            );
                        assert(p.questions[i] == self.questions@[i]@);
                        assert(!p.names_fit());
                    }
                }
                return Err(e);
            },
        }
        proof {
            assert(builder.buf_view@ =~= splice(buf0, pos0, ench + encq));
        }
        match write_answer_section(builder, &self.answers) {
            Ok(u) => u,
            Err(e) => {
                proof {
                    if e == DnsError::LabelTooLong {
                        let i = choose|i: int|
                            0 <= i < self.answers@.len() && !(#[trigger] self.answers@[i])@.names_fit();
                        assert(p.answers[i] == self.answers@[i]@);
                        assert(!p.names_fit());
                    }
                }
                return Err(e);
            },
        }
        proof {
            assert(builder.buf_view@ =~= splice(buf0, pos0, ench + encq + enca));
        }
        match write_answer_section(builder, &self.authorities) {
            Ok(u) => u,
            Err(e) => {
                proof {
                    if e == DnsError::LabelTooLong {
                        let i = choose|i: int|
                            0 <= i < self.authorities@.len() && !(
                            #[trigger] self.authorities@[i])@.names_fit();
                        assert(p.authorities[i] == self.authorities@[i]@);
                        assert(!p.names_fit());
                    }
                }
                return Err(e);
            },
        }
        proof {
            assert(builder.buf_view@ =~= splice(buf0, pos0, ench + encq + enca + encu));
        }
        match write_answer_section(builder, &self.additional) {
            Ok(u) => u,
            Err(e) => {
                proof {
                    if e == DnsError::LabelTooLong {
                        let i = choose|i: int|
                            0 <= i < self.additional@.len() && !(
                            #[trigger] self.additional@[i])@.names_fit();
                        assert(p.additional[i] == self.additional@[i]@);
                        assert(!p.names_fit());
                    }
                }
                return Err(e);
            },
        }
        proof {
            assert(builder.buf_view@ =~= splice(buf0, pos0, spec_encode_packet(p)));
            assert forall|i: int| 0 <= i < p.questions.len() implies crate::buffer::labels_fit(
                (#[trigger] p.questions[i]).name,
            ) by {
                assert(p.questions[i] == self.questions@[i]@);
            };
            assert forall|i: int| 0 <= i < p.answers.len() implies (
            #[trigger] p.answers[i]).names_fit() by {
                assert(p.answers[i] == self.answers@[i]@);
            };
            assert forall|i: int| 0 <= i < p.authorities.len() implies (
            #[trigger] p.authorities[i]).names_fit() by {
                assert(p.authorities[i] == self.authorities@[i]@);
            };
            assert forall|i: int| 0 <= i < p.additional.len() implies (
            #[trigger] p.additional[i]).names_fit() by {
                assert(p.additional[i] == self.additional@[i]@);
            };
        }
        Ok(())
    }

    /// Encodes the message into a fresh 512-byte buffer and says how
    /// many bytes were written.  A message whose encoding would exceed
    /// 512 bytes is refused with `EndOfBuffer`, never truncated.
    pub fn to_buf(&self) -> (r: Result<(Vec<u8>, usize), DnsError>)
        requires
            self@.wf(),
            self@.counts_fit(),
        ensures
            (match r {
                Ok((buf, n)) => {
                    &&& self@.names_fit()
                    &&& spec_encode_packet(self@).len() <= 512
                    &&& n == spec_encode_packet(self@).len()
                    &&& buf@.len() == 512
                    &&& buf@.subrange(0, n as int) == spec_encode_packet(self@)
                    &&& forall|i: int| n <= i < 512 ==> buf@[i] == 0
                },
                Err(e) => {
                    &&& (e == DnsError::LabelTooLong && !self@.names_fit()) || (e
                        == DnsError::EndOfBuffer && spec_encode_packet(self@).len() > 512)
                    &&& !(self@.names_fit() && spec_encode_packet(self@).len() <= 512)
                },
            }),
    {
        let data: Vec<u8> = vec![0u8; 512];
        let mut builder = BufferBuilder::new(data);
        match self.write_to_buf(&mut builder) {
            Ok(u) => u,
            Err(e) => {
                return Err(e);
            },
        }
        let bytes_written = builder.get_pos();
        proof {
            crate::buffer::lemma_splice_index(
                builder.buf_view@.subrange(0, 0) + Seq::empty(),
                0,
                Seq::empty(),
            );
        }
        let buf = builder.into_buf();
        proof {
            let enc = spec_encode_packet(self@);
            assert(buf@.subrange(0, enc.len() as int) =~= enc);
            crate::buffer::lemma_splice_index(Seq::new(512, |i: int| 0u8), 0, enc);
            assert forall|i: int| enc.len() <= i < 512 implies buf@[i] == 0 by {
                assert(buf@[i] == Seq::new(512, |j: int| 0u8)[i]);
            };
        }
        Ok((buf, bytes_written))
    }
}


impl Record {
    /// An owned copy with the same wire-level fields.
    pub fn duplicate(&self) -> (r: Record)
        ensures
            r@ == self@,
    {
        match self {
            Record::A(ip) => Record::A(*ip),
            Record::NS(name) => Record::NS(name.clone()),
            Record::CNAME(name) => Record::CNAME(name.clone()),
            Record::MX { priority, host } => Record::MX {
                priority: *priority,
                host: host.clone(),
            },
            Record::AAAA(ip) => Record::AAAA(*ip),
            Record::UNKOWN(code) => Record::UNKOWN(*code),
        }
    }
}

impl Answer {
    /// An owned copy with the same wire-level fields.
    pub fn duplicate(&self) -> (r: Answer)
        ensures
            r@ == self@,
    {
        Answer {
            name: self.name.clone(),
            query_type: self.query_type,
            class: self.class,
            ttl: self.ttl,
            len: self.len,
            record: self.record.duplicate(),
        }
    }
}

impl Question {
    /// An owned copy with the same fields.
    pub fn duplicate(&self) -> (r: Question)
        ensures
            r@ == self@,
    {
        Question { name: self.name.clone(), query_type: self.query_type, class: self.class }
    }
}

/// Owned copies of a record section, wire-level equal.
pub fn copy_answers(v: &Vec<Answer>) -> (r: Vec<Answer>)
    ensures
        r@.map_values(|a: Answer| a@) == v@.map_values(|a: Answer| a@),
        r@.len() == v@.len(),
{
    let mut out: Vec<Answer> = Vec::new();
    let mut i: usize = 0;
    while i < v.len()
        invariant
            i <= v@.len(),
            out@.len() == i,
            forall|j: int| 0 <= j < i ==> (#[trigger] out@[j])@ == v@[j]@,
        decreases v@.len() - i,
    {
        out.push(v[i].duplicate());
        i = i + 1;
    }
    proof {
        assert(out@.map_values(|a: Answer| a@) =~= v@.map_values(|a: Answer| a@));
    }
    out
}


/// No character of the name is an uppercase ASCII letter.
pub open spec fn name_lowered(s: Seq<char>) -> bool {
    forall|i: int| 0 <= i < s.len() ==> !('A' <= #[trigger] s[i] <= 'Z')
}

/// A name that survives the wire unchanged: ASCII, already lowercase,
/// non-empty, with labels of 1 to 63 bytes.
pub open spec fn canonical_name(s: Seq<char>) -> bool {
    &&& crate::buffer::valid_wire_name(s)
    &&& name_lowered(s)
    &&& s.len() > 0
}

/// Decoding maps a canonical name's wire bytes back to itself.
pub proof fn lemma_canonical_name_chars(s: Seq<char>)
    requires
        vstd::utf8::is_ascii_chars(s),
        name_lowered(s),
    ensures
        crate::buffer::chars_of_bytes(crate::buffer::lower_bytes(s)) == s,
{
    vstd::utf8::is_ascii_chars_nat_bound(s);
    assert forall|i: int|
        0 <= i < s.len() implies crate::buffer::chars_of_bytes(crate::buffer::lower_bytes(s))[i]
        == s[i] by {
        assert((s[i] as nat) < 128);
        assert(crate::buffer::name_byte(s[i] as u8) == s[i] as u8);
    };
    assert(crate::buffer::chars_of_bytes(crate::buffer::lower_bytes(s)) =~= s);
}

/// A question whose decode gives back exactly what was encoded.
pub open spec fn rt_question(q: QuestionV) -> bool {
    &&& canonical_name(q.name)
    &&& q.query_type.code_consistent()
}

/// Reading a question's wire image yields the question.
pub proof fn lemma_question_round_trip(buf: Seq<u8>, pos: int, q: QuestionV)
    requires
        rt_question(q),
        0 <= pos,
        pos + spec_encode_question(q).len() <= buf.len(),
        buf.subrange(pos, pos + spec_encode_question(q).len() as int) == spec_encode_question(q),
    ensures
        spec_decode_question(buf, pos) == Ok::<(QuestionV, int), DnsError>(
            (q, pos + spec_encode_question(q).len()),
        ),
{
    let encn = crate::buffer::spec_encode_name(q.name);
    let enc = spec_encode_question(q);
    crate::buffer::lemma_be_bytes_len(q.query_type.spec_to_u16() as nat, 2);
    crate::buffer::lemma_be_bytes_len(q.class as nat, 2);
    assert(forall|k: int| 0 <= k < enc.len() ==> buf[pos + k] == #[trigger] enc.index(k)) by {
        assert(forall|k: int|
            0 <= k < enc.len() ==> buf.subrange(pos, pos + enc.len() as int)[k]
                == #[trigger] enc.index(k));
    };
    assert forall|k: int| 0 <= k < encn.len() implies buf.subrange(
        pos,
        pos + encn.len() as int,
    )[k] == encn.index(k) by {
        assert(buf[pos + k] == enc[k]);
    };
    assert(buf.subrange(pos, pos + encn.len() as int) =~= encn);
    crate::buffer::lemma_name_round_trip(buf, pos, q.name);
    lemma_canonical_name_chars(q.name);
    let p2 = pos + encn.len();
    assert(crate::buffer::spec_name_end(buf, pos) == p2);
    assert forall|k: int| 0 <= k < 2 implies buf.subrange(p2, p2 + 2)[k] == be_bytes(
        q.query_type.spec_to_u16() as nat,
        2,
    ).index(k) by {
        assert(buf[pos + (encn.len() + k)] == enc[encn.len() + k]);
    };
    assert(buf.subrange(p2, p2 + 2) =~= be_bytes(q.query_type.spec_to_u16() as nat, 2));
    crate::buffer::lemma_pow256_16();
    crate::buffer::lemma_be_round_trip(q.query_type.spec_to_u16() as nat, 2);
    assert(be_val(buf.subrange(p2, p2 + 2)) == q.query_type.spec_to_u16());
    assert(QueryType::spec_from(q.query_type.spec_to_u16()) == q.query_type);
    assert forall|k: int| 0 <= k < 2 implies buf.subrange(p2 + 2, p2 + 4)[k] == be_bytes(
        q.class as nat,
        2,
    ).index(k) by {
        assert(buf[pos + (encn.len() + 2 + k)] == enc[encn.len() + 2 + k]);
    };
    assert(buf.subrange(p2 + 2, p2 + 4) =~= be_bytes(q.class as nat, 2));
    crate::buffer::lemma_be_round_trip(q.class as nat, 2);
    let dq = spec_decode_question(buf, pos)->Ok_0.0;
    assert(dq.name == q.name);
    assert(dq.query_type == q.query_type);
    assert(dq.class == q.class);
}


/// The RDLENGTH value that encoding computes for a record.
pub open spec fn spec_rdlen(r: RecordV) -> int {
    match r {
        RecordV::A(ip) => 4,
        RecordV::NS(n) => crate::buffer::spec_encode_name(n).len() as int,
        RecordV::CNAME(n) => crate::buffer::spec_encode_name(n).len() as int,
        RecordV::MX { priority, host } => crate::buffer::spec_encode_name(host).len() + 2int,
        RecordV::AAAA(ip) => 16,
        RecordV::UNKOWN(code) => 0,
    }
}

/// A record whose decode gives back exactly what was encoded: canonical
/// names, a type code matching the rdata, and the stored RDLENGTH equal
/// to the one the encoder writes.  An unknown record is exempt: it is
/// dropped by encoding.
pub open spec fn rt_answer(a: AnswerV) -> bool {
    a.record is UNKOWN || {
        &&& canonical_name(a.name)
        &&& a.query_type.code_consistent()
        &&& (match a.record {
            RecordV::A(ip) => a.query_type == QueryType::A,
            RecordV::NS(n) => a.query_type == QueryType::NS && canonical_name(n),
            RecordV::CNAME(n) => a.query_type == QueryType::CNAME && canonical_name(n),
            RecordV::MX { priority, host } => a.query_type == QueryType::MX && canonical_name(
                host,
            ),
            RecordV::AAAA(ip) => a.query_type == QueryType::AAAA,
            RecordV::UNKOWN(code) => false,
        })
        &&& a.len == spec_rdlen(a.record)
        &&& spec_rdlen(a.record) <= 0xFFFF
    }
}

/// Reading a record's wire image yields the record.
#[verifier::rlimit(100)]
pub proof fn lemma_answer_round_trip(buf: Seq<u8>, pos: int, a: AnswerV)
    requires
        rt_answer(a),
        !(a.record is UNKOWN),
        0 <= pos,
        pos + spec_encode_answer(a).len() <= buf.len(),
        buf.subrange(pos, pos + spec_encode_answer(a).len() as int) == spec_encode_answer(a),
    ensures
        spec_decode_answer(buf, pos) == Ok::<(AnswerV, int), DnsError>(
            (a, pos + spec_encode_answer(a).len()),
        ),
{
    let encn = crate::buffer::spec_encode_name(a.name);
    let encr = spec_encode_record(a.record);
    let enc = spec_encode_answer(a);
    let code = a.query_type.spec_to_u16();
    crate::buffer::lemma_be_bytes_len(code as nat, 2);
    crate::buffer::lemma_be_bytes_len(a.class as nat, 2);
    crate::buffer::lemma_be_bytes_len(a.ttl as nat, 4);
    crate::buffer::lemma_pow256_16();
    assert(forall|k: int| 0 <= k < enc.len() ==> buf[pos + k] == #[trigger] enc.index(k)) by {
        assert(forall|k: int|
            0 <= k < enc.len() ==> buf.subrange(pos, pos + enc.len() as int)[k]
                == #[trigger] enc.index(k));
    };
    // the owner name
    assert forall|k: int| 0 <= k < encn.len() implies buf.subrange(
        pos,
        pos + encn.len() as int,
    )[k] == encn.index(k) by {
        assert(buf[pos + k] == enc[k]);
    };
    assert(buf.subrange(pos, pos + encn.len() as int) =~= encn);
    crate::buffer::lemma_name_round_trip(buf, pos, a.name);
    lemma_canonical_name_chars(a.name);
    let p2 = pos + encn.len();
    assert(crate::buffer::spec_name_end(buf, pos) == p2);
    // type, class, ttl, rdlength
    assert forall|k: int| 0 <= k < 2 implies buf.subrange(p2, p2 + 2)[k] == be_bytes(
        code as nat,
        2,
    ).index(k) by {
        assert(buf[pos + (encn.len() + k)] == enc[encn.len() + k]);
    };
    assert(buf.subrange(p2, p2 + 2) =~= be_bytes(code as nat, 2));
    crate::buffer::lemma_be_round_trip(code as nat, 2);
    assert(QueryType::spec_from(code) == a.query_type);
    assert forall|k: int| 0 <= k < 2 implies buf.subrange(p2 + 2, p2 + 4)[k] == be_bytes(
        a.class as nat,
        2,
    ).index(k) by {
        assert(buf[pos + (encn.len() + 2 + k)] == enc[encn.len() + 2 + k]);
    };
    assert(buf.subrange(p2 + 2, p2 + 4) =~= be_bytes(a.class as nat, 2));
    crate::buffer::lemma_be_round_trip(a.class as nat, 2);
    assert forall|k: int| 0 <= k < 4 implies buf.subrange(p2 + 4, p2 + 8)[k] == be_bytes(
        a.ttl as nat,
        4,
    ).index(k) by {
        assert(buf[pos + (encn.len() + 4 + k)] == enc[encn.len() + 4 + k]);
    };
    assert(buf.subrange(p2 + 4, p2 + 8) =~= be_bytes(a.ttl as nat, 4));
    crate::buffer::lemma_be_round_trip(a.ttl as nat, 4);
    let rdlen = spec_rdlen(a.record);
    crate::buffer::lemma_be_bytes_len(rdlen as nat, 2);
    assert(encr == be_bytes(rdlen as nat, 2) + encr.skip(2)) by {
        match a.record {
            RecordV::A(ip) => {
                assert(encr =~= be_bytes(rdlen as nat, 2) + encr.skip(2));
            },
            RecordV::NS(n) => {
                assert(encr =~= be_bytes(rdlen as nat, 2) + encr.skip(2));
            },
            RecordV::CNAME(n) => {
                assert(encr =~= be_bytes(rdlen as nat, 2) + encr.skip(2));
            },
            RecordV::MX { priority, host } => {
                assert(encr =~= be_bytes(rdlen as nat, 2) + encr.skip(2));
            },
            RecordV::AAAA(ip) => {
                assert(encr =~= be_bytes(rdlen as nat, 2) + encr.skip(2));
            },
            RecordV::UNKOWN(code2) => {
            },
        }
    };
    assert forall|k: int|
        #![trigger buf.subrange(p2 + 8, p2 + 10).index(k)]
        0 <= k < 2 implies buf.subrange(p2 + 8, p2 + 10)[k] == be_bytes(rdlen as nat, 2).index(
        k,
    ) by {
        assert(buf[pos + (encn.len() + 8 + k)] == enc[encn.len() + 8 + k]);
        assert(enc[encn.len() + 8 + k] == encr[k]);
    };
    assert(buf.subrange(p2 + 8, p2 + 10) =~= be_bytes(rdlen as nat, 2));
    crate::buffer::lemma_be_round_trip(rdlen as nat, 2);
    let p3 = p2 + 10;
    // the rdata itself
    let rdata = encr.skip(2);
    assert forall|k: int| 0 <= k < rdata.len() implies buf[p3 + k] == rdata.index(k) by {
        assert(buf[pos + (encn.len() + 10 + k)] == enc[encn.len() + 10 + k]);
        assert(enc[encn.len() + 10 + k] == encr[2 + k]);
    };
    match a.record {
        RecordV::A(ip) => {
            crate::buffer::lemma_be_bytes_len(ip as nat, 4);
            assert forall|k: int| 0 <= k < 4 implies buf.subrange(p3, p3 + 4)[k] == be_bytes(
                ip as nat,
                4,
            ).index(k) by {
                assert(buf[p3 + k] == rdata[k]);
                assert(rdata[k] == be_bytes(ip as nat, 4)[k]);
            };
            assert(buf.subrange(p3, p3 + 4) =~= be_bytes(ip as nat, 4));
            crate::buffer::lemma_be_round_trip(ip as nat, 4);
        },
        RecordV::AAAA(ip) => {
            crate::buffer::lemma_be_bytes_len(ip as nat, 16);
            assert forall|k: int| 0 <= k < 16 implies buf.subrange(p3, p3 + 16)[k] == be_bytes(
                ip as nat,
                16,
            ).index(k) by {
                assert(buf[p3 + k] == rdata[k]);
                assert(rdata[k] == be_bytes(ip as nat, 16)[k]);
            };
            assert(buf.subrange(p3, p3 + 16) =~= be_bytes(ip as nat, 16));
            crate::buffer::lemma_be_round_trip(ip as nat, 16);
        },
        RecordV::NS(n) => {
            let encn2 = crate::buffer::spec_encode_name(n);
            assert forall|k: int| 0 <= k < encn2.len() implies buf.subrange(
                p3,
                p3 + encn2.len() as int,
            )[k] == encn2.index(k) by {
                assert(buf[p3 + k] == rdata[k]);
                assert(rdata[k] == encn2[k]);
            };
            assert(buf.subrange(p3, p3 + encn2.len() as int) =~= encn2);
            crate::buffer::lemma_name_round_trip(buf, p3, n);
            lemma_canonical_name_chars(n);
        },
        RecordV::CNAME(n) => {
            let encn2 = crate::buffer::spec_encode_name(n);
            assert forall|k: int| 0 <= k < encn2.len() implies buf.subrange(
                p3,
                p3 + encn2.len() as int,
            )[k] == encn2.index(k) by {
                assert(buf[p3 + k] == rdata[k]);
                assert(rdata[k] == encn2[k]);
            };
            assert(buf.subrange(p3, p3 + encn2.len() as int) =~= encn2);
            crate::buffer::lemma_name_round_trip(buf, p3, n);
            lemma_canonical_name_chars(n);
        },
        RecordV::MX { priority, host } => {
            crate::buffer::lemma_be_bytes_len(priority as nat, 2);
            assert forall|k: int| 0 <= k < 2 implies buf.subrange(p3, p3 + 2)[k] == be_bytes(
                priority as nat,
                2,
            ).index(k) by {
                assert(buf[p3 + k] == rdata[k]);
                assert(rdata[k] == be_bytes(priority as nat, 2)[k]);
            };
            assert(buf.subrange(p3, p3 + 2) =~= be_bytes(priority as nat, 2));
            crate::buffer::lemma_be_round_trip(priority as nat, 2);
            let encn2 = crate::buffer::spec_encode_name(host);
            assert forall|k: int| 0 <= k < encn2.len() implies buf.subrange(
                p3 + 2,
                p3 + 2 + encn2.len() as int,
            )[k] == encn2.index(k) by {
                assert(buf[p3 + (2 + k)] == rdata[2 + k]);
                assert(rdata[2 + k] == encn2[k]);
            };
            assert(buf.subrange(p3 + 2, p3 + 2 + encn2.len() as int) =~= encn2);
            crate::buffer::lemma_name_round_trip(buf, p3 + 2, host);
            lemma_canonical_name_chars(host);
        },
        RecordV::UNKOWN(code2) => {
        },
    }
    let da = spec_decode_answer(buf, pos)->Ok_0.0;
    assert(da == a);
}


/// Reading back an encoded question section yields the questions.
pub proof fn lemma_questions_round_trip(buf: Seq<u8>, pos: int, qs: Seq<QuestionV>)
    requires
        forall|i: int| 0 <= i < qs.len() ==> rt_question(#[trigger] qs[i]),
        0 <= pos,
        pos + spec_encode_questions(qs).len() <= buf.len(),
        buf.subrange(pos, pos + spec_encode_questions(qs).len() as int) == spec_encode_questions(
            qs,
        ),
    ensures
        spec_decode_questions(buf, pos, qs.len() as int) == Ok::<(Seq<QuestionV>, int), DnsError>(
            (qs, pos + spec_encode_questions(qs).len()),
        ),
    decreases qs.len(),
{
    let enc = spec_encode_questions(qs);
    assert(forall|k: int| 0 <= k < enc.len() ==> buf[pos + k] == #[trigger] enc.index(k)) by {
        assert(forall|k: int|
            0 <= k < enc.len() ==> buf.subrange(pos, pos + enc.len() as int)[k]
                == #[trigger] enc.index(k));
    };
    if qs.len() == 0 {
        assert(qs =~= Seq::<QuestionV>::empty());
    } else {
        let head = spec_encode_question(qs[0]);
        let tail_qs = qs.drop_first();
        let tail = spec_encode_questions(tail_qs);
        assert(enc == head + tail);
        assert forall|k: int| 0 <= k < head.len() implies buf.subrange(
            pos,
            pos + head.len() as int,
        )[k] == head.index(k) by {
            assert(buf[pos + k] == enc[k]);
        };
        assert(buf.subrange(pos, pos + head.len() as int) =~= head);
        lemma_question_round_trip(buf, pos, qs[0]);
        let pos2 = pos + head.len();
        assert forall|k: int| 0 <= k < tail.len() implies buf.subrange(
            pos2,
            pos2 + tail.len() as int,
        )[k] == tail.index(k) by {
            assert(buf[pos + (head.len() + k)] == enc[head.len() + k]);
        };
        assert(buf.subrange(pos2, pos2 + tail.len() as int) =~= tail);
        assert(forall|i: int| 0 <= i < tail_qs.len() ==> rt_question(#[trigger] tail_qs[i]));
        lemma_questions_round_trip(buf, pos2, tail_qs);
        assert(seq![qs[0]] + tail_qs =~= qs);
    }
}

/// Reading back an encoded record section yields exactly its emitted
/// records.
pub proof fn lemma_answers_round_trip(buf: Seq<u8>, pos: int, s: Seq<AnswerV>)
    requires
        forall|i: int| 0 <= i < s.len() ==> rt_answer(#[trigger] s[i]),
        0 <= pos,
        pos + spec_encode_answers(s).len() <= buf.len(),
        buf.subrange(pos, pos + spec_encode_answers(s).len() as int) == spec_encode_answers(s),
    ensures
        spec_decode_answers(buf, pos, spec_emitted(s).len() as int) == Ok::<
            (Seq<AnswerV>, int),
            DnsError,
        >((spec_emitted(s), pos + spec_encode_answers(s).len())),
    decreases s.len(),
{
    let enc = spec_encode_answers(s);
    assert(forall|k: int| 0 <= k < enc.len() ==> buf[pos + k] == #[trigger] enc.index(k)) by {
        assert(forall|k: int|
            0 <= k < enc.len() ==> buf.subrange(pos, pos + enc.len() as int)[k]
                == #[trigger] enc.index(k));
    };
    if s.len() == 0 {
    } else {
        let head = spec_encode_answer(s[0]);
        let tail_s = s.drop_first();
        let tail = spec_encode_answers(tail_s);
        assert(enc == head + tail);
        assert(forall|i: int| 0 <= i < tail_s.len() ==> rt_answer(#[trigger] tail_s[i]));
        if s[0].record is UNKOWN {
            assert(head =~= Seq::<u8>::empty());
            assert(enc =~= tail);
            lemma_answers_round_trip(buf, pos, tail_s);
            assert(spec_emitted(s) == spec_emitted(tail_s));
        } else {
            assert forall|k: int| 0 <= k < head.len() implies buf.subrange(
                pos,
                pos + head.len() as int,
            )[k] == head.index(k) by {
                assert(buf[pos + k] == enc[k]);
            };
            assert(buf.subrange(pos, pos + head.len() as int) =~= head);
            lemma_answer_round_trip(buf, pos, s[0]);
            let pos2 = pos + head.len();
            assert forall|k: int| 0 <= k < tail.len() implies buf.subrange(
                pos2,
                pos2 + tail.len() as int,
            )[k] == tail.index(k) by {
                assert(buf[pos + (head.len() + k)] == enc[head.len() + k]);
            };
            assert(buf.subrange(pos2, pos2 + tail.len() as int) =~= tail);
            lemma_answers_round_trip(buf, pos2, tail_s);
            lemma_emitted_len(tail_s);
            assert(spec_emitted(s) == seq![s[0]] + spec_emitted(tail_s));
            assert(spec_emitted(s).len() == 1 + spec_emitted(tail_s).len());
        }
    }
}


/// A message whose decode gives back exactly what was encoded, once the
/// unknown records it would drop are set aside: sections short enough to
/// count, and every question and record round-trippable.
pub open spec fn rt_packet(p: DnsPacketV) -> bool {
    &&& p.counts_fit()
    &&& forall|i: int| 0 <= i < p.questions.len() ==> rt_question(#[trigger] p.questions[i])
    &&& forall|i: int| 0 <= i < p.answers.len() ==> rt_answer(#[trigger] p.answers[i])
    &&& forall|i: int| 0 <= i < p.authorities.len() ==> rt_answer(#[trigger] p.authorities[i])
    &&& forall|i: int| 0 <= i < p.additional.len() ==> rt_answer(#[trigger] p.additional[i])
}

/// The message with its unknown records omitted and its header counts
/// set to what the sections then hold.
pub open spec fn spec_normalize(p: DnsPacketV) -> DnsPacketV {
    DnsPacketV {
        header: p.counts_header(),
        questions: p.questions,
        answers: spec_emitted(p.answers),
        authorities: spec_emitted(p.authorities),
        additional: spec_emitted(p.additional),
    }
}

/// Decoding an encoded message yields the message, after normalising
/// unknown-record omission: the encode/decode round-trip law.
#[verifier::rlimit(100)]
pub proof fn lemma_packet_round_trip(p: DnsPacketV)
    requires
        rt_packet(p),
    ensures
        spec_decode_packet(spec_encode_packet(p)) == Ok::<DnsPacketV, DnsError>(spec_normalize(p)),
{
    let bytes = spec_encode_packet(p);
    let h2 = p.counts_header();
    let ench = spec_encode_header(h2);
    let encq = spec_encode_questions(p.questions);
    let enca = spec_encode_answers(p.answers);
    let encu = spec_encode_answers(p.authorities);
    let encd = spec_encode_answers(p.additional);
    lemma_encode_header_len(h2);
    crate::buffer::lemma_be_bytes_len(h2.id as nat, 2);
    crate::buffer::lemma_be_bytes_len(h2.question_count as nat, 2);
    crate::buffer::lemma_be_bytes_len(h2.answer_count as nat, 2);
    crate::buffer::lemma_be_bytes_len(h2.authoritiy_count as nat, 2);
    crate::buffer::lemma_be_bytes_len(h2.additional_count as nat, 2);
    crate::buffer::lemma_pow256_16();
    lemma_emitted_len(p.answers);
    lemma_emitted_len(p.authorities);
    lemma_emitted_len(p.additional);
    assert(bytes == ench + encq + enca + encu + encd);
    // the twelve header bytes decode to the header that was written
    assert(bytes.subrange(0, 2) =~= be_bytes(h2.id as nat, 2));
    crate::buffer::lemma_be_round_trip(h2.id as nat, 2);
    assert(bytes[2] == h2.flags1);
    assert(bytes[3] == h2.flags2);
    assert(bytes.subrange(4, 6) =~= be_bytes(h2.question_count as nat, 2));
    crate::buffer::lemma_be_round_trip(h2.question_count as nat, 2);
    assert(bytes.subrange(6, 8) =~= be_bytes(h2.answer_count as nat, 2));
    crate::buffer::lemma_be_round_trip(h2.answer_count as nat, 2);
    assert(bytes.subrange(8, 10) =~= be_bytes(h2.authoritiy_count as nat, 2));
    crate::buffer::lemma_be_round_trip(h2.authoritiy_count as nat, 2);
    assert(bytes.subrange(10, 12) =~= be_bytes(h2.additional_count as nat, 2));
    crate::buffer::lemma_be_round_trip(h2.additional_count as nat, 2);
    let dh = spec_decode_header(bytes, 0);
    assert(dh == h2);
    // the question section
    let o1 = ench.len() as int;
    assert forall|k: int| 0 <= k < encq.len() implies bytes.subrange(
        o1,
        o1 + encq.len() as int,
    )[k] == encq.index(k) by {
        assert(bytes[o1 + k] == encq[k]);
    };
    assert(bytes.subrange(o1, o1 + encq.len() as int) =~= encq);
    lemma_questions_round_trip(bytes, o1, p.questions);
    assert(h2.question_count as int == p.questions.len() as int);
    // the three record sections
    let o2 = o1 + encq.len() as int;
    assert forall|k: int| 0 <= k < enca.len() implies bytes.subrange(
        o2,
        o2 + enca.len() as int,
    )[k] == enca.index(k) by {
        assert(bytes[o2 + k] == enca[k]);
    };
    assert(bytes.subrange(o2, o2 + enca.len() as int) =~= enca);
    lemma_answers_round_trip(bytes, o2, p.answers);
    assert(h2.answer_count as int == spec_emitted(p.answers).len() as int);
    let o3 = o2 + enca.len() as int;
    assert forall|k: int| 0 <= k < encu.len() implies bytes.subrange(
        o3,
        o3 + encu.len() as int,
    )[k] == encu.index(k) by {
        assert(bytes[o3 + k] == encu[k]);
    };
    assert(bytes.subrange(o3, o3 + encu.len() as int) =~= encu);
    lemma_answers_round_trip(bytes, o3, p.authorities);
    assert(h2.authoritiy_count as int == spec_emitted(p.authorities).len() as int);
    let o4 = o3 + encu.len() as int;
    assert forall|k: int| 0 <= k < encd.len() implies bytes.subrange(
        o4,
        o4 + encd.len() as int,
    )[k] == encd.index(k) by {
        assert(bytes[o4 + k] == encd[k]);
    };
    assert(bytes.subrange(o4, o4 + encd.len() as int) =~= encd);
    lemma_answers_round_trip(bytes, o4, p.additional);
    assert(h2.additional_count as int == spec_emitted(p.additional).len() as int);
    assert(spec_decode_packet(bytes)->Ok_0 == spec_normalize(p));
}

} // verus!
