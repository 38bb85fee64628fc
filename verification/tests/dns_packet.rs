use dns_decode::buffer::{ByteBuffer, ErrorType};
use dns_decode::dns_packet::{
    DnsHeader, DnsPacket, DnsRecord, HeaderType, Ipv4Addr, OperationCode, QueryType,
    QuestionHeader, ResponseCode,
};

fn buffer_of(bytes: &[u8]) -> ByteBuffer {
    let mut buffer = ByteBuffer::new();
    buffer.set_buffer(&bytes.to_vec());
    buffer
}

fn buffer_with_bytes_at(at: usize, bytes: &[u8]) -> ByteBuffer {
    let mut all = vec![0u8; 512];
    all[at..at + bytes.len()].copy_from_slice(bytes);
    buffer_of(&all)
}

#[test]
fn test_convertions() {
    let rp = ResponseCode::from(4);
    assert_eq!(rp, ResponseCode::NotImplemented);

    let rp_i: ResponseCode = 4.into();

    assert_eq!(rp_i, rp);
}

#[test]
fn test_dns_hdr() {
    let test_queries = vec![
        (
            vec![0xc5, 0x09, 0x01, 0x20, 0x00, 0x01, 0x00, 0x00, 0x00, 0x00, 0x00, 0x00],
            DnsHeader {
                id: 50441,
                qr: HeaderType::Query,
                opcode: OperationCode::StandardQuery,
                is_auth_answer: false,
                is_truncated: false,
                should_recurse: true,
                recursion_available: false,
                z_flag: true,
                response_code: ResponseCode::Success,
                question_count: 1,
                answer_count: 0,
                authority_count: 0,
                additional_count: 0,
            },
        ),
        (
            vec![0xc5, 0x09, 0x81, 0x80, 0x00, 0x01, 0x00, 0x01, 0x00, 0x00, 0x00, 0x00],
            DnsHeader {
                id: 50441,
                qr: HeaderType::Response,
                opcode: OperationCode::StandardQuery,
                is_auth_answer: false,
                is_truncated: false,
                should_recurse: true,
                recursion_available: true,
                z_flag: false,
                response_code: ResponseCode::Success,
                question_count: 1,
                answer_count: 1,
                authority_count: 0,
                additional_count: 0,
            },
        ),
    ];

    let mut buffer = ByteBuffer::new();
    for (buff, answ) in test_queries.iter() {
        buffer.set_buffer(buff);
        let ans = DnsHeader::read(&mut buffer);

        assert_eq!(ans.is_ok(), true);
        assert_eq!(ans.unwrap(), *answ);
    }
}

#[test]
fn test_dns_record() {
    let vec_test_queries = vec![(
        vec![
            0x06, 0x67, 0x6f, 0x6f, 0x67, 0x6c, 0x65, 0x03, 0x63, 0x6f, 0x6d, 0x00, 0x00, 0x01,
            0x00, 0x01, 0xc0, 0x00, 0x00, 0x01, 0x00, 0x01, 0x00, 0x00, 0x01, 0x2b, 0x00, 0x04,
            0x8e, 0xfa, 0xbb, 0x8e,
        ],
        (
            QuestionHeader { name: String::from("google.com"), qtype: QueryType::A, class: 1 },
            DnsRecord::A {
                domain: String::from("google.com"),
                addr: Ipv4Addr::new(0x8e, 0xfa, 0xbb, 0x8e),
                ttl: 0x12b,
            },
        ),
    )];
    let mut byte_buffer = ByteBuffer::new();
    for (query_vec, query_out) in vec_test_queries.iter() {
        byte_buffer.set_buffer(query_vec);
        let q_hdr = QuestionHeader::read(&mut byte_buffer).unwrap();
        assert_eq!(q_hdr, query_out.0);

        let record = DnsRecord::read(&mut byte_buffer).unwrap();
        assert_eq!(record, query_out.1);
    }
}

fn google_answer() -> Vec<u8> {
    vec![
        0xc5, 0x09, 0x81, 0x80, 0x00, 0x01, 0x00, 0x01, 0x00, 0x00, 0x00, 0x00, 0x06, 0x67, 0x6f,
        0x6f, 0x67, 0x6c, 0x65, 0x03, 0x63, 0x6f, 0x6d, 0x00, 0x00, 0x01, 0x00, 0x01, 0xc0, 0x0c,
        0x00, 0x01, 0x00, 0x01, 0x00, 0x00, 0x01, 0x2b, 0x00, 0x04, 0x8e, 0xfa, 0xbb, 0x8e,
    ]
}

#[test]
fn test_dns_packet() {
    let byte_vec = google_answer();
    let mut byte_buffer = ByteBuffer::new();

    byte_buffer.set_buffer(&byte_vec);

    let dns_packet = DnsPacket::read(&mut byte_buffer).unwrap();
    assert_eq!(
        dns_packet,
        DnsPacket {
            header: DnsHeader {
                id: 50441,
                qr: HeaderType::Response,
                opcode: OperationCode::StandardQuery,
                is_auth_answer: false,
                is_truncated: false,
                should_recurse: true,
                recursion_available: true,
                z_flag: false,
                response_code: ResponseCode::Success,
                question_count: 1,
                answer_count: 1,
                authority_count: 0,
                additional_count: 0,
            },
            questions: vec![QuestionHeader {
                name: String::from("google.com"),
                qtype: QueryType::A,
                class: 1
            }],
            answers: vec![DnsRecord::A {
                domain: String::from("google.com"),
                addr: Ipv4Addr::new(0x8e, 0xfa, 0xbb, 0x8e),
                ttl: 0x12b
            }],
            authorities: Vec::new(),
            resources: Vec::new()
        }
    )
}

#[test]
fn packet_answer_is_the_address_of_google_com() {
    let mut buffer = buffer_of(&google_answer());
    let packet = DnsPacket::read(&mut buffer).unwrap();
    assert_eq!(packet.questions.len(), 1);
    assert_eq!(packet.questions[0].qtype, QueryType::A);
    assert_eq!(packet.answers.len(), 1);
    match &packet.answers[0] {
        DnsRecord::A { domain, addr, ttl } => {
            assert_eq!(domain, "google.com");
            assert_eq!(addr.octets(), [142, 250, 187, 142]);
            assert_eq!(*ttl, 0x12b);
        }
        other => panic!("not an address record: {:?}", other),
    }
    assert_eq!(buffer.get_index(), google_answer().len());
}

#[test]
fn header_type_codes() {
    assert_eq!(HeaderType::from(0), HeaderType::Query);
    assert_eq!(HeaderType::from(1), HeaderType::Response);
    assert_eq!(HeaderType::from(2), HeaderType::Unimplemented);
    assert_eq!(HeaderType::from(255), HeaderType::Unimplemented);
}

#[test]
fn operation_codes() {
    assert_eq!(OperationCode::from(0), OperationCode::StandardQuery);
    assert_eq!(OperationCode::from(1), OperationCode::InverseQuery);
    assert_eq!(OperationCode::from(2), OperationCode::Reserved);
    assert_eq!(OperationCode::from(3), OperationCode::ServerStatusRequest);
    assert_eq!(OperationCode::from(4), OperationCode::Reserved);
    assert_eq!(OperationCode::from(15), OperationCode::Reserved);
}

#[test]
fn response_codes() {
    assert_eq!(ResponseCode::from(0), ResponseCode::Success);
    assert_eq!(ResponseCode::from(1), ResponseCode::FormatError);
    assert_eq!(ResponseCode::from(2), ResponseCode::ServerFailure);
    assert_eq!(ResponseCode::from(3), ResponseCode::NameError);
    assert_eq!(ResponseCode::from(4), ResponseCode::NotImplemented);
    assert_eq!(ResponseCode::from(5), ResponseCode::Refused);
    assert_eq!(ResponseCode::from(6), ResponseCode::NotImplemented);
    assert_eq!(ResponseCode::from(15), ResponseCode::NotImplemented);
}

#[test]
fn query_type_codes() {
    assert_eq!(QueryType::from(1), QueryType::A);
    assert_eq!(QueryType::from(0), QueryType::UNKOWN(0));
    assert_eq!(QueryType::from(28), QueryType::UNKOWN(28));
    assert_eq!(QueryType::from(65535), QueryType::UNKOWN(65535));
}

#[test]
fn new_header_is_an_empty_standard_query() {
    assert_eq!(
        DnsHeader::new(),
        DnsHeader {
            id: 0,
            qr: HeaderType::Query,
            opcode: OperationCode::StandardQuery,
            is_auth_answer: false,
            is_truncated: false,
            should_recurse: false,
            recursion_available: false,
            z_flag: false,
            response_code: ResponseCode::Success,
            question_count: 0,
            answer_count: 0,
            authority_count: 0,
            additional_count: 0,
        }
    );
}

#[test]
fn header_flags_come_from_their_bits() {
    let header_with = |left: u8, right: u8| {
        let mut buffer = buffer_of(&[0, 0, left, right, 0, 0, 0, 0, 0, 0, 0, 0]);
        DnsHeader::read(&mut buffer).unwrap()
    };

    let aa = header_with(0x04, 0x00);
    assert!(aa.is_auth_answer && !aa.is_truncated && !aa.should_recurse);
    let tc = header_with(0x02, 0x00);
    assert!(!tc.is_auth_answer && tc.is_truncated && !tc.should_recurse);
    let rd = header_with(0x01, 0x00);
    assert!(!rd.is_auth_answer && !rd.is_truncated && rd.should_recurse);

    let ra = header_with(0x00, 0x80);
    assert!(ra.recursion_available && !ra.z_flag);
    assert_eq!(ra.response_code, ResponseCode::Success);
    for z in [0x10u8, 0x20, 0x40, 0x70] {
        let h = header_with(0x00, z);
        assert!(h.z_flag && !h.recursion_available);
        assert_eq!(h.response_code, ResponseCode::Success);
    }

    // inverse query: opcode 1 in bits 6 to 3
    let inverse = header_with(0x08, 0x00);
    assert_eq!(inverse.opcode, OperationCode::InverseQuery);
    assert_eq!(inverse.qr, HeaderType::Query);
    assert!(!inverse.is_auth_answer);
    assert_eq!(header_with(0x10, 0x00).opcode, OperationCode::Reserved);
    assert_eq!(header_with(0x18, 0x00).opcode, OperationCode::ServerStatusRequest);
    assert_eq!(header_with(0x78, 0x00).opcode, OperationCode::Reserved);

    let refused = header_with(0x80, 0x05);
    assert_eq!(refused.qr, HeaderType::Response);
    assert_eq!(refused.opcode, OperationCode::StandardQuery);
    assert_eq!(refused.response_code, ResponseCode::Refused);
    assert_eq!(header_with(0x00, 0x0f).response_code, ResponseCode::NotImplemented);

    let all = header_with(0xff, 0xff);
    assert!(all.is_auth_answer && all.is_truncated && all.should_recurse);
    assert!(all.recursion_available && all.z_flag);
    assert_eq!(all.qr, HeaderType::Response);
    assert_eq!(all.opcode, OperationCode::Reserved);
}

#[test]
fn header_counts_are_read_in_order() {
    let mut buffer = buffer_of(&[0x12, 0x34, 0, 0, 0, 1, 0, 2, 0, 3, 1, 4]);
    let header = DnsHeader::read(&mut buffer).unwrap();
    assert_eq!(header.id, 0x1234);
    assert_eq!(header.question_count, 1);
    assert_eq!(header.answer_count, 2);
    assert_eq!(header.authority_count, 3);
    assert_eq!(header.additional_count, 0x104);
    assert_eq!(buffer.get_index(), 12);
}

#[test]
fn header_needs_twelve_bytes() {
    let mut buffer = ByteBuffer::new();
    assert_eq!(buffer.seek(500), Ok(()));
    assert!(DnsHeader::read(&mut buffer).is_ok());
    assert_eq!(buffer.get_index(), 512);

    assert_eq!(buffer.seek(501), Ok(()));
    assert_eq!(DnsHeader::read(&mut buffer), Err(ErrorType::EndOfFile));
    assert_eq!(buffer.get_index(), 512);
}

#[test]
fn new_question_is_in_class_one() {
    let question = QuestionHeader::new(String::from("example.org"), QueryType::UNKOWN(15));
    assert_eq!(
        question,
        QuestionHeader { name: String::from("example.org"), qtype: QueryType::UNKOWN(15), class: 1 }
    );
}

#[test]
fn question_reads_name_type_and_class() {
    let mut buffer = buffer_of(&[2, b'a', b'b', 0, 0x00, 0x1c, 0x00, 0x03]);
    let question = QuestionHeader::read(&mut buffer).unwrap();
    assert_eq!(
        question,
        QuestionHeader { name: String::from("ab"), qtype: QueryType::UNKOWN(28), class: 3 }
    );
    assert_eq!(buffer.get_index(), 8);
}

#[test]
fn question_fails_as_its_name_does() {
    let mut buffer = buffer_of(&[0xc0, 0x00]);
    assert_eq!(QuestionHeader::read(&mut buffer), Err(ErrorType::MaxJumpsReached));
    assert_eq!(buffer.get_index(), 0);

    let mut buffer = buffer_of(&[0xff, 0xff]);
    assert_eq!(QuestionHeader::read(&mut buffer), Err(ErrorType::OutOfBounds));
    assert_eq!(buffer.get_index(), 0);
}

#[test]
fn question_cut_off_is_end_of_file() {
    let mut buffer = buffer_with_bytes_at(506, &[1, b'a', 0, 0, 1, 0]);
    assert_eq!(buffer.seek(506), Ok(()));
    assert_eq!(QuestionHeader::read(&mut buffer), Err(ErrorType::EndOfFile));
    assert_eq!(buffer.get_index(), 512);
}

#[test]
fn address_keeps_its_octets() {
    let addr = Ipv4Addr::new(142, 250, 187, 142);
    assert_eq!(addr.octets(), [142, 250, 187, 142]);
    assert_eq!(addr, Ipv4Addr::new(142, 250, 187, 142));
    assert_ne!(addr, Ipv4Addr::new(142, 187, 250, 142));
}

#[test]
fn unknown_record_keeps_its_fields_and_leaves_the_data() {
    let mut buffer = buffer_of(&[
        1, b'x', 0, // name
        0x00, 0x10, // type 16
        0x00, 0x01, // class
        0x00, 0x00, 0x0e, 0x10, // ttl 3600
        0x00, 0x03, // three bytes of data
        2, b'h', b'i',
    ]);
    let record = DnsRecord::read(&mut buffer).unwrap();
    assert_eq!(
        record,
        DnsRecord::UNKOWN {
            domain: String::from("x"),
            qtype: QueryType::UNKOWN(16),
            class: 1,
            data_len: 3,
            ttl: 3600,
        }
    );
    // the cursor stands in front of the data
    assert_eq!(buffer.get_index(), 13);
}

#[test]
fn address_record_drops_class_and_length() {
    let mut buffer = buffer_of(&[
        1, b'x', 0, 0x00, 0x01, 0x12, 0x34, 0x01, 0x02, 0x03, 0x04, 0x00, 0x09, 10, 0, 0, 1,
    ]);
    let record = DnsRecord::read(&mut buffer).unwrap();
    assert_eq!(
        record,
        DnsRecord::A {
            domain: String::from("x"),
            addr: Ipv4Addr::new(10, 0, 0, 1),
            ttl: 0x01020304
        }
    );
    assert_eq!(buffer.get_index(), 17);
}

#[test]
fn record_cut_off_is_end_of_file() {
    // the ten bytes behind the name fit, the address does not
    let mut all = vec![0u8; 512];
    all[499..502].copy_from_slice(&[1, b'x', 0]);
    all[503] = 1;
    let mut buffer = buffer_of(&all);
    assert_eq!(buffer.seek(499), Ok(()));
    assert_eq!(DnsRecord::read(&mut buffer), Err(ErrorType::EndOfFile));
    assert_eq!(buffer.get_index(), 512);

    // of another type the same bytes are a whole record
    all[503] = 2;
    let mut buffer = buffer_of(&all);
    assert_eq!(buffer.seek(499), Ok(()));
    assert!(DnsRecord::read(&mut buffer).is_ok());
    assert_eq!(buffer.get_index(), 512);

    // the ten bytes do not fit
    let mut buffer = buffer_with_bytes_at(500, &[1, b'x', 0]);
    assert_eq!(buffer.seek(500), Ok(()));
    assert_eq!(DnsRecord::read(&mut buffer), Err(ErrorType::EndOfFile));
    assert_eq!(buffer.get_index(), 512);
}

#[test]
fn record_fails_as_its_name_does() {
    let mut buffer = buffer_of(&[0xc0, 0x02, 0xc0, 0x00]);
    assert_eq!(DnsRecord::read(&mut buffer), Err(ErrorType::MaxJumpsReached));
    assert_eq!(buffer.get_index(), 0);
}

#[test]
fn new_packet_is_empty() {
    let packet = DnsPacket::new();
    assert_eq!(packet.header, DnsHeader::new());
    assert!(packet.questions.is_empty());
    assert!(packet.answers.is_empty());
    assert!(packet.authorities.is_empty());
    assert!(packet.resources.is_empty());
}

#[test]
fn packet_sections_follow_the_counts() {
    let mut wire = vec![0, 7, 0x80, 0, 0, 2, 0, 1, 0, 1, 0, 2];
    // two questions
    wire.extend_from_slice(&[1, b'a', 0, 0, 1, 0, 1]);
    wire.extend_from_slice(&[1, b'b', 0, 0, 2, 0, 1]);
    // one answer, one authority record, two additional records
    for last in [1u8, 2, 3, 4] {
        wire.extend_from_slice(&[0xc0, 12, 0, 1, 0, 1, 0, 0, 0, 60, 0, 4, 10, 0, 0, last]);
    }
    let mut buffer = buffer_of(&wire);
    let packet = DnsPacket::read(&mut buffer).unwrap();
    let record = |last: u8| DnsRecord::A {
        domain: String::from("a"),
        addr: Ipv4Addr::new(10, 0, 0, last),
        ttl: 60,
    };
    assert_eq!(
        packet.questions,
        vec![
            QuestionHeader { name: String::from("a"), qtype: QueryType::A, class: 1 },
            QuestionHeader { name: String::from("b"), qtype: QueryType::UNKOWN(2), class: 1 },
        ]
    );
    assert_eq!(packet.answers, vec![record(1)]);
    assert_eq!(packet.authorities, vec![record(2)]);
    assert_eq!(packet.resources, vec![record(3), record(4)]);
    assert_eq!(buffer.get_index(), wire.len());
}

#[test]
fn packet_with_no_entries_is_its_header() {
    let mut buffer = buffer_of(&[0xab, 0xcd, 0, 0, 0, 0, 0, 0, 0, 0, 0, 0, 9, 9]);
    let packet = DnsPacket::read(&mut buffer).unwrap();
    assert_eq!(packet.header.id, 0xabcd);
    assert!(packet.questions.is_empty());
    assert!(packet.answers.is_empty());
    assert_eq!(buffer.get_index(), 12);
}

#[test]
fn packet_that_runs_out_of_bytes_fails() {
    // The header counts more questions than the buffer can hold. Each
    // empty name with type and class takes five bytes: the hundredth
    // question ends at the capacity, where no further name can start.
    let mut buffer = buffer_of(&[0, 0, 0, 0, 0xff, 0xff, 0, 0, 0, 0, 0, 0]);
    assert_eq!(DnsPacket::read(&mut buffer), Err(ErrorType::OutOfBounds));
    assert_eq!(buffer.get_index(), 512);

    // With one byte less in front, the last question's class is cut off.
    let mut buffer = buffer_of(&[0, 0, 0, 0, 0xff, 0xff, 0, 0, 0, 0, 0, 0]);
    assert_eq!(buffer.seek(1), Ok(()));
    let mut rest = vec![0u8; 512];
    rest[5] = 0xff;
    rest[6] = 0xff;
    buffer.set_buffer(&rest);
    assert_eq!(buffer.seek(1), Ok(()));
    assert_eq!(DnsPacket::read(&mut buffer), Err(ErrorType::EndOfFile));
    assert_eq!(buffer.get_index(), 512);
}

#[test]
fn packet_fails_as_its_first_bad_entry_does() {
    let mut wire = vec![0, 0, 0, 0, 0, 1, 0, 1, 0, 0, 0, 0];
    wire.extend_from_slice(&[1, b'a', 0, 0, 1, 0, 1]);
    // the answer's name is a pointer to itself
    wire.extend_from_slice(&[0xc0, 19]);
    let mut buffer = buffer_of(&wire);
    assert_eq!(DnsPacket::read(&mut buffer), Err(ErrorType::MaxJumpsReached));
    assert_eq!(buffer.get_index(), 19);
}

#[test]
fn packet_cut_off_in_its_header_fails() {
    let mut buffer = ByteBuffer::new();
    assert_eq!(buffer.seek(505), Ok(()));
    assert_eq!(DnsPacket::read(&mut buffer), Err(ErrorType::EndOfFile));
    assert_eq!(buffer.get_index(), 512);
}
