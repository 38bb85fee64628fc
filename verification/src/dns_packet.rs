//! The parts of a DNS message and their decoders: the header of twelve
//! bytes, questions, resource records, and the whole message.
//!
//! Each decoder has a spec function that says, for the bytes of a buffer and
//! a cursor, what is decoded and where the cursor is left, also on failure.

use vstd::prelude::*;
use vstd::std_specs::convert::FromSpec;
use crate::buffer::{u16_at, u32_at, ByteBuffer, ErrorType, BUFFER_SIZE};
use crate::qname::name_at;

verus! {

/// Whether a message asks or answers.
#[derive(Debug, PartialEq, Clone, Eq)]
pub enum HeaderType {
    Query,
    Response,
    Unimplemented,
}

impl From<u8> for HeaderType {
    fn from(code: u8) -> (r: Self) {
        match code {
            0 => Self::Query,
            1 => Self::Response,
            _ => Self::Unimplemented,
        }
    }
}

impl vstd::std_specs::convert::FromSpecImpl<u8> for HeaderType {
    open spec fn obeys_from_spec() -> bool {
        true
    }

    open spec fn from_spec(code: u8) -> Self {
        if code == 0 {
            Self::Query
        } else if code == 1 {
            Self::Response
        } else {
            Self::Unimplemented
        }
    }
}

/// The kind of query. The codes 0, 1 and 3 have a name; every other code is
/// `Reserved`.
#[derive(Debug, PartialEq, Clone, Eq)]
pub enum OperationCode {
    StandardQuery,
    InverseQuery,
    ServerStatusRequest,
    Reserved,
}

impl From<u8> for OperationCode {
    fn from(code: u8) -> (r: Self) {
        match code {
            0 => Self::StandardQuery,
            1 => Self::InverseQuery,
            3 => Self::ServerStatusRequest,
            _ => Self::Reserved,
        }
    }
}

impl vstd::std_specs::convert::FromSpecImpl<u8> for OperationCode {
    open spec fn obeys_from_spec() -> bool {
        true
    }

    open spec fn from_spec(code: u8) -> Self {
        if code == 0 {
            Self::StandardQuery
        } else if code == 1 {
            Self::InverseQuery
        } else if code == 3 {
            Self::ServerStatusRequest
        } else {
            Self::Reserved
        }
    }
}

/// The status of an answer. The codes 0 to 5 have a name; every other code
/// is taken as `NotImplemented`.
#[derive(Debug, PartialEq, Clone, Eq)]
pub enum ResponseCode {
    Success,
    /// The server could not read the query.
    FormatError,
    /// The server failed.
    ServerFailure,
    /// The name asked for does not exist.
    NameError,
    NotImplemented,
    /// The server refuses to answer, for reasons of policy.
    Refused,
}

impl From<u8> for ResponseCode {
    fn from(code: u8) -> (r: Self) {
        match code {
            0 => Self::Success,
            1 => Self::FormatError,
            2 => Self::ServerFailure,
            3 => Self::NameError,
            4 => Self::NotImplemented,
            5 => Self::Refused,
            _ => Self::NotImplemented,
        }
    }
}

impl vstd::std_specs::convert::FromSpecImpl<u8> for ResponseCode {
    open spec fn obeys_from_spec() -> bool {
        true
    }

    open spec fn from_spec(code: u8) -> Self {
        if code == 0 {
            Self::Success
        } else if code == 1 {
            Self::FormatError
        } else if code == 2 {
            Self::ServerFailure
        } else if code == 3 {
            Self::NameError
        } else if code == 5 {
            Self::Refused
        } else {
            Self::NotImplemented
        }
    }
}

/// The type of a question or of a record: `A`, code 1, or any other code,
/// kept as it came.
#[derive(Debug, Clone, PartialEq, Eq)]
pub enum QueryType {
    UNKOWN(u16),
    A,
}

impl From<u16> for QueryType {
    fn from(code: u16) -> (r: Self) {
        match code {
            1 => Self::A,
            _ => Self::UNKOWN(code),
        }
    }
}

impl vstd::std_specs::convert::FromSpecImpl<u16> for QueryType {
    open spec fn obeys_from_spec() -> bool {
        true
    }

    open spec fn from_spec(code: u16) -> Self {
        if code == 1 {
            Self::A
        } else {
            Self::UNKOWN(code)
        }
    }
}

/// What a decoder makes of the bytes from a cursor on: the value or the
/// failure, and where the cursor is left.
pub struct Decoded<T> {
    pub value: Result<T, ErrorType>,
    pub cursor: nat,
}

/// Whether a decoder's result is the expected one: the same failure, or a
/// value with the expected view.
pub open spec fn agrees<T: View>(r: Result<T, ErrorType>, expected: Result<T::V, ErrorType>) -> bool {
    match expected {
        Ok(v) => r is Ok && r->Ok_0@ == v,
        Err(e) => r is Err && r->Err_0 == e,
    }
}

/// The header of a message: twelve bytes on the wire.
#[derive(Debug, Clone, PartialEq, Eq)]
pub struct DnsHeader {
    pub id: u16,
    pub qr: HeaderType,
    pub opcode: OperationCode,
    /// The answer comes from a server that holds the name.
    pub is_auth_answer: bool,
    /// The message was cut to fit.
    pub is_truncated: bool,
    /// The sender asks the server to follow the question up.
    pub should_recurse: bool,
    /// The server is ready to follow questions up.
    pub recursion_available: bool,
    /// Any of the three reserved bits is set.
    pub z_flag: bool,
    pub response_code: ResponseCode,
    /// The number of entries in the question section.
    pub question_count: u16,
    /// The number of entries in the answer section.
    pub answer_count: u16,
    /// The number of entries in the authority section.
    pub authority_count: u16,
    /// The number of entries in the additional section.
    pub additional_count: u16,
}

/// The header whose twelve bytes start at `pos`. Of the two flag bytes, the
/// first holds the message type in bit 7, the opcode in bits 6 to 3, and the
/// three flags in bits 2 to 0; the second holds one flag in bit 7, the
/// reserved bits 6 to 4, and the response code in bits 3 to 0.
pub open spec fn header_at(bytes: Seq<u8>, pos: int) -> DnsHeader {
    let left = bytes[pos + 2];
    let right = bytes[pos + 3];
    DnsHeader {
        id: u16_at(bytes, pos),
        qr: HeaderType::from_spec(left >> 7),
        opcode: OperationCode::from_spec((left >> 3) & 0x0F),
        is_auth_answer: left & 0x04 != 0,
        is_truncated: left & 0x02 != 0,
        should_recurse: left & 0x01 != 0,
        recursion_available: right & 0x80 != 0,
        z_flag: right & 0x70 != 0,
        response_code: ResponseCode::from_spec(right & 0x0F),
        question_count: u16_at(bytes, pos + 4),
        answer_count: u16_at(bytes, pos + 6),
        authority_count: u16_at(bytes, pos + 8),
        additional_count: u16_at(bytes, pos + 10),
    }
}

/// Decoding a header at `pos`: it needs twelve bytes below the capacity,
/// and fails with the cursor at the capacity where they are not there.
pub open spec fn header_read(bytes: Seq<u8>, pos: nat) -> Decoded<DnsHeader> {
    if pos + 12 <= BUFFER_SIZE {
        Decoded { value: Ok(header_at(bytes, pos as int)), cursor: pos + 12 }
    } else {
        Decoded { value: Err(ErrorType::EndOfFile), cursor: BUFFER_SIZE as nat }
    }
}

impl DnsHeader {
    /// The header of an empty standard query: every number zero, every flag
    /// unset.
    pub open spec fn new_spec() -> Self {
        DnsHeader {
            id: 0,
            qr: HeaderType::Query,
            opcode: OperationCode::StandardQuery,
            is_auth_answer: false,
            is_truncated: false,
            should_recurse: false,
            recursion_available: false,
            z_flag: false,
            response_code: ResponseCode::Success,
            question_count: 0,
            answer_count: 0,
            authority_count: 0,
            additional_count: 0,
        }
    }

    /// The header of an empty standard query.
    pub fn new() -> (r: Self)
        ensures
            r == Self::new_spec(),
    {
        DnsHeader {
            id: 0,
            qr: HeaderType::Query,
            opcode: OperationCode::StandardQuery,
            is_auth_answer: false,
            is_truncated: false,
            should_recurse: false,
            recursion_available: false,
            z_flag: false,
            response_code: ResponseCode::Success,
            question_count: 0,
            answer_count: 0,
            authority_count: 0,
            additional_count: 0,
        }
    }

    /// Decodes the header under the cursor and moves the cursor past it.
    pub fn read(buffer: &mut ByteBuffer) -> (r: Result<Self, ErrorType>)
        ensures
            final(buffer).bytes() == old(buffer).bytes(),
            r == header_read(old(buffer).bytes(), old(buffer).cursor()).value,
            final(buffer).cursor() == header_read(old(buffer).bytes(), old(buffer).cursor()).cursor,
    {
        let ghost bytes = buffer.bytes();
        let ghost pos = buffer.cursor() as int;
        let id = buffer.read_mut_u16()?;
        let flags = buffer.read_mut_u16()?;

        let f_left = (flags >> 8) as u8;
        let f_right = (flags & 0x00FF) as u8;
        proof {
            let left = bytes[pos + 2];
            let right = bytes[pos + 3];
            assert(f_left == left && f_right == right) by (bit_vector)
                requires
                    flags == (left as u16) * 0x100 + (right as u16),
                    f_left == (flags >> 8) as u8,
                    f_right == (flags & 0x00FF) as u8,
            ;
            assert((((f_left << 1) & 0x0F) & 0x08 == 8) == (f_left & 0x04 != 0)) by (bit_vector);
            assert((((f_left << 1) & 0x0F) & 0x04 == 4) == (f_left & 0x02 != 0)) by (bit_vector);
            assert((((f_left << 1) & 0x0F) & 0x02 == 2) == (f_left & 0x01 != 0)) by (bit_vector);
            assert((f_right >> 7 == 1) == (f_right & 0x80 != 0)) by (bit_vector);
            assert((((f_right & 0x70) >> 4) > 0) == (f_right & 0x70 != 0)) by (bit_vector);
        }
        let qr = HeaderType::from(f_left >> 7);
        let opcode = OperationCode::from((f_left >> 3) & 0x0F);
        let response_code = ResponseCode::from(f_right & 0x0F);

        Ok(
            DnsHeader {
                id,
                qr,
                opcode,
                is_auth_answer: ((f_left << 1) & 0x0F) & 0x08 == 8,
                is_truncated: ((f_left << 1) & 0x0F) & 0x04 == 4,
                should_recurse: ((f_left << 1) & 0x0F) & 0x02 == 2,
                recursion_available: f_right >> 7 == 1,
                z_flag: ((f_right & 0x70) >> 4) > 0,
                response_code,
                question_count: buffer.read_mut_u16()?,
                answer_count: buffer.read_mut_u16()?,
                authority_count: buffer.read_mut_u16()?,
                additional_count: buffer.read_mut_u16()?,
            },
        )
    }
}

/// One entry of the question section.
#[derive(Debug, Clone, PartialEq, Eq)]
pub struct QuestionHeader {
    /// The name asked for: its labels in lower case, joined by dots.
    pub name: String,
    pub qtype: QueryType,
    pub class: u16,
}

/// A question as a mathematical value.
pub struct QuestionView {
    pub name: Seq<char>,
    pub qtype: QueryType,
    pub class: u16,
}

impl View for QuestionHeader {
    type V = QuestionView;

    open spec fn view(&self) -> QuestionView {
        QuestionView { name: self.name@, qtype: self.qtype, class: self.class }
    }
}

/// Decoding a question at `pos`: a name, then type and class, two bytes
/// each. Where the name fails the cursor stays; where the four bytes are
/// not there the cursor is left at the capacity.
pub open spec fn question_at(bytes: Seq<u8>, pos: nat) -> Decoded<QuestionView> {
    let name = name_at(bytes, pos);
    match name.next {
        Err(e) => Decoded { value: Err(e), cursor: pos },
        Ok(next) => {
            let p = next as int;
            if p + 4 <= BUFFER_SIZE {
                Decoded {
                    value: Ok(
                        QuestionView {
                            name: name.text,
                            qtype: QueryType::from_spec(u16_at(bytes, p)),
                            class: u16_at(bytes, p + 2),
                        },
                    ),
                    cursor: (p + 4) as nat,
                }
            } else {
                Decoded { value: Err(ErrorType::EndOfFile), cursor: BUFFER_SIZE as nat }
            }
        },
    }
}

impl QuestionHeader {
    /// A question for `name` in the class of the internet, 1.
    pub fn new(name: String, qtype: QueryType) -> (r: Self)
        ensures
            r@ == (QuestionView { name: name@, qtype: qtype, class: 1 }),
    {
        QuestionHeader { name, qtype, class: 1 }
    }

    /// Decodes the question under the cursor and moves the cursor past it.
    pub fn read(buffer: &mut ByteBuffer) -> (r: Result<QuestionHeader, ErrorType>)
        ensures
            final(buffer).bytes() == old(buffer).bytes(),
            agrees(r, question_at(old(buffer).bytes(), old(buffer).cursor()).value),
            final(buffer).cursor() == question_at(old(buffer).bytes(), old(buffer).cursor()).cursor,
    {
        let mut name = String::new();
        buffer.read_qname(&mut name)?;
        let qtype = QueryType::from(buffer.read_mut_u16()?);
        let class = buffer.read_mut_u16()?;
        Ok(QuestionHeader { name, qtype, class })
    }
}

/// An address of the internet protocol, version 4: four bytes.
#[derive(Debug, Clone, Copy, PartialEq, Eq)]
pub struct Ipv4Addr {
    octets: [u8; 4],
}

impl View for Ipv4Addr {
    type V = Seq<u8>;

    closed spec fn view(&self) -> Seq<u8> {
        self.octets@
    }
}

impl Ipv4Addr {
    /// The address `a.b.c.d`.
    pub fn new(a: u8, b: u8, c: u8, d: u8) -> (r: Self)
        ensures
            r@ == seq![a, b, c, d],
    {
        let r = Ipv4Addr { octets: [a, b, c, d] };
        assert(r.octets@ =~= seq![a, b, c, d]);
        r
    }

    /// The four bytes of the address, the first one first.
    pub fn octets(&self) -> (r: [u8; 4])
        ensures
            r@ == self@,
    {
        self.octets
    }
}

/// One entry of the answer, authority or additional section.
#[derive(Debug, Clone, PartialEq, Eq)]
pub enum DnsRecord {
    /// A record of a type that is not decoded further.
    UNKOWN { domain: String, qtype: QueryType, class: u16, data_len: u16, ttl: u32 },
    /// A record that gives the address of a name.
    A { domain: String, addr: Ipv4Addr, ttl: u32 },
}

/// A record as a mathematical value.
pub enum RecordView {
    UNKOWN { domain: Seq<char>, qtype: QueryType, class: u16, data_len: u16, ttl: u32 },
    A { domain: Seq<char>, addr: Seq<u8>, ttl: u32 },
}

impl View for DnsRecord {
    type V = RecordView;

    open spec fn view(&self) -> RecordView {
        match *self {
            DnsRecord::UNKOWN { domain, qtype, class, data_len, ttl } => RecordView::UNKOWN {
                domain: domain@,
                qtype,
                class,
                data_len,
                ttl,
            },
            DnsRecord::A { domain, addr, ttl } => RecordView::A {
                domain: domain@,
                addr: addr@,
                ttl,
            },
        }
    }
}

/// Decoding a record at `pos`: a name, then ten bytes that hold type,
/// class, time to live and the length of the data. A record of type `A`
/// goes on with the four bytes of its address. Of any other type the data
/// are left where they are: the cursor stops in front of them.
pub open spec fn record_at(bytes: Seq<u8>, pos: nat) -> Decoded<RecordView> {
    let name = name_at(bytes, pos);
    match name.next {
        Err(e) => Decoded { value: Err(e), cursor: pos },
        Ok(next) => {
            let p = next as int;
            if p + 10 > BUFFER_SIZE {
                Decoded { value: Err(ErrorType::EndOfFile), cursor: BUFFER_SIZE as nat }
            } else if u16_at(bytes, p) != 1 {
                Decoded {
                    value: Ok(
                        RecordView::UNKOWN {
                            domain: name.text,
                            qtype: QueryType::UNKOWN(u16_at(bytes, p)),
                            class: u16_at(bytes, p + 2),
                            data_len: u16_at(bytes, p + 8),
                            ttl: u32_at(bytes, p + 4),
                        },
                    ),
                    cursor: (p + 10) as nat,
                }
            } else if p + 14 > BUFFER_SIZE {
                Decoded { value: Err(ErrorType::EndOfFile), cursor: BUFFER_SIZE as nat }
            } else {
                Decoded {
                    value: Ok(
                        RecordView::A {
                            domain: name.text,
                            addr: bytes.subrange(p + 10, p + 14),
                            ttl: u32_at(bytes, p + 4),
                        },
                    ),
                    cursor: (p + 14) as nat,
                }
            }
        },
    }
}

impl DnsRecord {
    /// Decodes the record under the cursor and moves the cursor past what
    /// was decoded of it.
    pub fn read(buffer: &mut ByteBuffer) -> (r: Result<Self, ErrorType>)
        ensures
            final(buffer).bytes() == old(buffer).bytes(),
            agrees(r, record_at(old(buffer).bytes(), old(buffer).cursor()).value),
            final(buffer).cursor() == record_at(old(buffer).bytes(), old(buffer).cursor()).cursor,
    {
        let ghost bytes = buffer.bytes();
        proof {
            buffer.lemma_capacity();
        }
        let mut domain = String::new();
        buffer.read_qname(&mut domain)?;
        let ghost p = buffer.cursor() as int;

        let qtype = QueryType::from(buffer.read_mut_u16()?);
        let class = buffer.read_mut_u16()?;
        let ttl = buffer.read_mut_u32()?;
        let data_len = buffer.read_mut_u16()?;

        match qtype {
            QueryType::A => {
                let raw_addr = buffer.read_mut_u32()?;
                let a = ((raw_addr & 0xFF000000) >> 24) as u8;
                let b = ((raw_addr & 0x00FF0000) >> 16) as u8;
                let c = ((raw_addr & 0x0000FF00) >> 8) as u8;
                let d = (raw_addr & 0x000000FF) as u8;
                let addr = Ipv4Addr::new(a, b, c, d);
                proof {
                    let (w, x, y, z) = (bytes[p + 10], bytes[p + 11], bytes[p + 12], bytes[p + 13]);
                    assert(a == w && b == x && c == y && d == z) by (bit_vector)
                        requires
                            raw_addr == (w as u32) * 0x100_0000 + (x as u32) * 0x1_0000 + (y as u32)
                                * 0x100 + (z as u32),
                            a == ((raw_addr & 0xFF000000) >> 24) as u8,
                            b == ((raw_addr & 0x00FF0000) >> 16) as u8,
                            c == ((raw_addr & 0x0000FF00) >> 8) as u8,
                            d == (raw_addr & 0x000000FF) as u8,
                    ;
                    assert(addr@ =~= bytes.subrange(p + 10, p + 14));
                }
                Ok(DnsRecord::A { domain, addr, ttl })
            },
            _ => Ok(DnsRecord::UNKOWN { domain, qtype, class, data_len, ttl }),
        }
    }
}

/// A decoded message: the header and its four sections.
#[derive(Debug, Clone, PartialEq, Eq)]
pub struct DnsPacket {
    pub header: DnsHeader,
    pub questions: Vec<QuestionHeader>,
    pub answers: Vec<DnsRecord>,
    pub authorities: Vec<DnsRecord>,
    pub resources: Vec<DnsRecord>,
}

/// A message as a mathematical value.
pub struct PacketView {
    pub header: DnsHeader,
    pub questions: Seq<QuestionView>,
    pub answers: Seq<RecordView>,
    pub authorities: Seq<RecordView>,
    pub resources: Seq<RecordView>,
}

/// The questions of a section as mathematical values.
pub open spec fn question_views(questions: Seq<QuestionHeader>) -> Seq<QuestionView> {
    Seq::new(questions.len(), |i: int| questions[i]@)
}

/// The records of a section as mathematical values.
pub open spec fn record_views(records: Seq<DnsRecord>) -> Seq<RecordView> {
    Seq::new(records.len(), |i: int| records[i]@)
}

impl View for DnsPacket {
    type V = PacketView;

    open spec fn view(&self) -> PacketView {
        PacketView {
            header: self.header,
            questions: question_views(self.questions@),
            answers: record_views(self.answers@),
            authorities: record_views(self.authorities@),
            resources: record_views(self.resources@),
        }
    }
}

/// A decoded run of entries with `front` put before it; a failure stays
/// the failure it is.
pub open spec fn after<T>(front: Seq<T>, rest: Decoded<Seq<T>>) -> Decoded<Seq<T>> {
    Decoded {
        value: match rest.value {
            Ok(entries) => Ok(front + entries),
            Err(e) => Err(e),
        },
        cursor: rest.cursor,
    }
}

/// Decoding `count` questions in a row from `pos` on. The first failure is
/// the failure of the run, with the cursor where that question left it.
pub open spec fn questions_at(bytes: Seq<u8>, pos: nat, count: nat) -> Decoded<Seq<QuestionView>>
    decreases count,
{
    if count == 0 {
        Decoded { value: Ok(Seq::empty()), cursor: pos }
    } else {
        let head = question_at(bytes, pos);
        match head.value {
            Ok(question) => after(
                seq![question],
                questions_at(bytes, head.cursor, (count - 1) as nat),
            ),
            Err(e) => Decoded { value: Err(e), cursor: head.cursor },
        }
    }
}

/// Decoding `count` records in a row from `pos` on. The first failure is
/// the failure of the run, with the cursor where that record left it.
pub open spec fn records_at(bytes: Seq<u8>, pos: nat, count: nat) -> Decoded<Seq<RecordView>>
    decreases count,
{
    if count == 0 {
        Decoded { value: Ok(Seq::empty()), cursor: pos }
    } else {
        let head = record_at(bytes, pos);
        match head.value {
            Ok(record) => after(seq![record], records_at(bytes, head.cursor, (count - 1) as nat)),
            Err(e) => Decoded { value: Err(e), cursor: head.cursor },
        }
    }
}

/// Decoding a message at `pos`: the header, then as many questions,
/// answers, authority records and additional records as the header counts,
/// in that order. The first failure is the failure of the message.
pub open spec fn packet_at(bytes: Seq<u8>, pos: nat) -> Decoded<PacketView> {
    let head = header_read(bytes, pos);
    match head.value {
        Err(e) => Decoded { value: Err(e), cursor: head.cursor },
        Ok(header) => {
            let qd = questions_at(bytes, head.cursor, header.question_count as nat);
            match qd.value {
                Err(e) => Decoded { value: Err(e), cursor: qd.cursor },
                Ok(questions) => {
                    let an = records_at(bytes, qd.cursor, header.answer_count as nat);
                    match an.value {
                        Err(e) => Decoded { value: Err(e), cursor: an.cursor },
                        Ok(answers) => {
                            let ns = records_at(bytes, an.cursor, header.authority_count as nat);
                            match ns.value {
                                Err(e) => Decoded { value: Err(e), cursor: ns.cursor },
                                Ok(authorities) => {
                                    let ar = records_at(
                                        bytes,
                                        ns.cursor,
                                        header.additional_count as nat,
                                    );
                                    match ar.value {
                                        Err(e) => Decoded { value: Err(e), cursor: ar.cursor },
                                        Ok(resources) => Decoded {
                                            value: Ok(
                                                PacketView {
                                                    header,
                                                    questions,
                                                    answers,
                                                    authorities,
                                                    resources,
                                                },
                                            ),
                                            cursor: ar.cursor,
                                        },
                                    }
                                },
                            }
                        },
                    }
                },
            }
        },
    }
}

/// A run of questions that decodes holds as many of them as were asked for.
pub proof fn lemma_questions_count(bytes: Seq<u8>, pos: nat, count: nat)
    ensures
        questions_at(bytes, pos, count).value is Ok ==> questions_at(
            bytes,
            pos,
            count,
        ).value->Ok_0.len() == count,
    decreases count,
{
    if count > 0 {
        lemma_questions_count(bytes, question_at(bytes, pos).cursor, (count - 1) as nat);
    }
}

/// A run of records that decodes holds as many of them as were asked for.
pub proof fn lemma_records_count(bytes: Seq<u8>, pos: nat, count: nat)
    ensures
        records_at(bytes, pos, count).value is Ok ==> records_at(
            bytes,
            pos,
            count,
        ).value->Ok_0.len() == count,
    decreases count,
{
    if count > 0 {
        lemma_records_count(bytes, record_at(bytes, pos).cursor, (count - 1) as nat);
    }
}

/// In a message that decodes, each section holds as many entries as the
/// header counts for it.
pub proof fn lemma_sections_match_counts(bytes: Seq<u8>, pos: nat)
    requires
        packet_at(bytes, pos).value is Ok,
    ensures
        ({
            let packet = packet_at(bytes, pos).value->Ok_0;
            &&& packet.header == header_at(bytes, pos as int)
            &&& packet.questions.len() == packet.header.question_count
            &&& packet.answers.len() == packet.header.answer_count
            &&& packet.authorities.len() == packet.header.authority_count
            &&& packet.resources.len() == packet.header.additional_count
        }),
{
    let header = header_at(bytes, pos as int);
    let qd = questions_at(bytes, pos + 12, header.question_count as nat);
    let an = records_at(bytes, qd.cursor, header.answer_count as nat);
    let ns = records_at(bytes, an.cursor, header.authority_count as nat);
    lemma_questions_count(bytes, pos + 12, header.question_count as nat);
    lemma_records_count(bytes, qd.cursor, header.answer_count as nat);
    lemma_records_count(bytes, an.cursor, header.authority_count as nat);
    lemma_records_count(bytes, ns.cursor, header.additional_count as nat);
}

/// Decodes `count` questions in a row.
fn read_questions(buffer: &mut ByteBuffer, count: u16) -> (r: Result<
    Vec<QuestionHeader>,
    ErrorType,
>)
    ensures
        final(buffer).bytes() == old(buffer).bytes(),
        match questions_at(old(buffer).bytes(), old(buffer).cursor(), count as nat).value {
            Ok(questions) => r is Ok && question_views(r->Ok_0@) == questions,
            Err(e) => r is Err && r->Err_0 == e,
        },
        final(buffer).cursor() == questions_at(
            old(buffer).bytes(),
            old(buffer).cursor(),
            count as nat,
        ).cursor,
{
    let ghost bytes = buffer.bytes();
    let ghost whole = questions_at(bytes, buffer.cursor(), count as nat);
    let mut questions: Vec<QuestionHeader> = Vec::new();
    let mut i: u16 = 0;
    while i < count
        invariant
            i <= count,
            bytes == old(buffer).bytes(),
            buffer.bytes() == bytes,
            whole == questions_at(bytes, old(buffer).cursor(), count as nat),
            whole == after(
                question_views(questions@),
                questions_at(bytes, buffer.cursor(), (count - i) as nat),
            ),
        decreases count - i,
    {
        let ghost front = question_views(questions@);
        let ghost head = question_at(bytes, buffer.cursor());
        match QuestionHeader::read(buffer) {
            Ok(question) => {
                questions.push(question);
                proof {
                    let tail = questions_at(bytes, head.cursor, (count - i - 1) as nat);
                    assert(question_views(questions@) =~= front.push(question@));
                    assert(front + (seq![question@] + tail.value->Ok_0) =~= front.push(question@)
                        + tail.value->Ok_0);
                }
            },
            Err(e) => {
                return Err(e);
            },
        }
        i += 1;
    }
    assert(question_views(questions@) + Seq::<QuestionView>::empty() =~= question_views(
        questions@,
    ));
    Ok(questions)
}

/// Decodes `count` records in a row.
fn read_records(buffer: &mut ByteBuffer, count: u16) -> (r: Result<Vec<DnsRecord>, ErrorType>)
    ensures
        final(buffer).bytes() == old(buffer).bytes(),
        match records_at(old(buffer).bytes(), old(buffer).cursor(), count as nat).value {
            Ok(records) => r is Ok && record_views(r->Ok_0@) == records,
            Err(e) => r is Err && r->Err_0 == e,
        },
        final(buffer).cursor() == records_at(
            old(buffer).bytes(),
            old(buffer).cursor(),
            count as nat,
        ).cursor,
{
    let ghost bytes = buffer.bytes();
    let ghost whole = records_at(bytes, buffer.cursor(), count as nat);
    let mut records: Vec<DnsRecord> = Vec::new();
    let mut i: u16 = 0;
    while i < count
        invariant
            i <= count,
            bytes == old(buffer).bytes(),
            buffer.bytes() == bytes,
            whole == records_at(bytes, old(buffer).cursor(), count as nat),
            whole == after(
                record_views(records@),
                records_at(bytes, buffer.cursor(), (count - i) as nat),
            ),
        decreases count - i,
    {
        let ghost front = record_views(records@);
        let ghost head = record_at(bytes, buffer.cursor());
        match DnsRecord::read(buffer) {
            Ok(record) => {
                records.push(record);
                proof {
                    let tail = records_at(bytes, head.cursor, (count - i - 1) as nat);
                    assert(record_views(records@) =~= front.push(record@));
                    assert(front + (seq![record@] + tail.value->Ok_0) =~= front.push(record@)
                        + tail.value->Ok_0);
                }
            },
            Err(e) => {
                return Err(e);
            },
        }
        i += 1;
    }
    assert(record_views(records@) + Seq::<RecordView>::empty() =~= record_views(records@));
    Ok(records)
}

impl DnsPacket {
    /// A message with the header of an empty standard query and no entries.
    pub fn new() -> (r: Self)
        ensures
            r@ == (PacketView {
                header: DnsHeader::new_spec(),
                questions: Seq::empty(),
                answers: Seq::empty(),
                authorities: Seq::empty(),
                resources: Seq::empty(),
            }),
    {
        let r = DnsPacket {
            header: DnsHeader::new(),
            questions: Vec::new(),
            answers: Vec::new(),
            authorities: Vec::new(),
            resources: Vec::new(),
        };
        assert(question_views(r.questions@) =~= Seq::empty());
        assert(record_views(r.answers@) =~= Seq::empty());
        assert(record_views(r.authorities@) =~= Seq::empty());
        assert(record_views(r.resources@) =~= Seq::empty());
        r
    }

    /// Decodes the message under the cursor: the header, then each section
    /// with as many entries as the header counts. The first entry that
    /// fails ends the decoding with its failure; no part of a message is
    /// handed out.
    pub fn read(buffer: &mut ByteBuffer) -> (r: Result<Self, ErrorType>)
        ensures
            final(buffer).bytes() == old(buffer).bytes(),
            agrees(r, packet_at(old(buffer).bytes(), old(buffer).cursor()).value),
            final(buffer).cursor() == packet_at(old(buffer).bytes(), old(buffer).cursor()).cursor,
            r is Ok ==> {
                let packet = r->Ok_0;
                &&& packet.questions@.len() == packet.header.question_count
                &&& packet.answers@.len() == packet.header.answer_count
                &&& packet.authorities@.len() == packet.header.authority_count
                &&& packet.resources@.len() == packet.header.additional_count
            },
    {
        proof {
            if packet_at(buffer.bytes(), buffer.cursor()).value is Ok {
                lemma_sections_match_counts(buffer.bytes(), buffer.cursor());
            }
        }
        let header = DnsHeader::read(buffer)?;
        let questions = read_questions(buffer, header.question_count)?;
        let answers = read_records(buffer, header.answer_count)?;
        let authorities = read_records(buffer, header.authority_count)?;
        let resources = read_records(buffer, header.additional_count)?;
        Ok(DnsPacket { header, questions, answers, authorities, resources })
    }
}

} // verus!
