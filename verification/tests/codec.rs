use sabledb::codec::{
    take_frame, encode_command, encode_reply, find_line_end, parse_array_frame, parse_frame,
    parse_inline_frame, push_bulk, push_decimal, push_header, read_header, split_words, Command,
    Frame, FrameError, Header, Intake, Reply,
};
use sabledb::error_codes::ErrorKind;

fn command(args: &[&[u8]]) -> Command {
    Command { args: args.iter().map(|a| a.to_vec()).collect() }
}

#[test]
fn parses_a_whole_command() {
    let frame = parse_frame(b"*2\r\n$3\r\nGET\r\n$1\r\na\r\n");
    assert_eq!(frame, Frame::Complete { command: command(&[b"GET", b"a"]), consumed: 20 });
}

#[test]
fn parses_only_the_first_of_two_commands() {
    let buf = b"*1\r\n$4\r\nPING\r\n*2\r\n$3\r\nGET\r\n$1\r\na\r\n";
    let frame = parse_frame(buf);
    assert_eq!(frame, Frame::Complete { command: command(&[b"PING"]), consumed: 14 });
    let frame = parse_frame(&buf[14..]);
    assert_eq!(frame, Frame::Complete { command: command(&[b"GET", b"a"]), consumed: 20 });
}

#[test]
fn a_command_without_arguments_is_whole() {
    assert_eq!(parse_frame(b"*0\r\n"), Frame::Complete { command: command(&[]), consumed: 4 });
}

#[test]
fn an_argument_may_be_empty_or_hold_any_byte() {
    let frame = parse_frame(b"*2\r\n$0\r\n\r\n$4\r\n\r\n\0*\r\n");
    assert_eq!(frame, Frame::Complete { command: command(&[b"", b"\r\n\0*"]), consumed: 20 });
}

#[test]
fn every_proper_prefix_of_a_command_is_incomplete() {
    let whole = b"*2\r\n$3\r\nSET\r\n$10\r\n0123456789\r\n";
    for n in 0..whole.len() {
        assert_eq!(parse_frame(&whole[..n]), Frame::Incomplete, "prefix of {} bytes", n);
    }
    assert_eq!(whole.len(), 30);
    assert!(matches!(parse_frame(whole), Frame::Complete { consumed: 30, .. }));
}

#[test]
fn a_line_of_words_is_a_command() {
    assert_eq!(
        parse_frame(b"GET a\r\n"),
        Frame::Complete { command: command(&[b"GET", b"a"]), consumed: 7 }
    );
    assert_eq!(
        parse_frame(b"ping\r\nping\r\n"),
        Frame::Complete { command: command(&[b"ping"]), consumed: 6 }
    );
    assert_eq!(
        parse_frame(b"$3\r\nGET\r\n"),
        Frame::Complete { command: command(&[b"$3"]), consumed: 4 }
    );
}

#[test]
fn words_are_what_stands_between_blanks() {
    assert_eq!(split_words(b"set k v"), vec![b"set".to_vec(), b"k".to_vec(), b"v".to_vec()]);
    assert_eq!(split_words(b"  set   k  "), vec![b"set".to_vec(), b"k".to_vec()]);
    assert_eq!(split_words(b"x"), vec![b"x".to_vec()]);
    assert_eq!(split_words(b"a\tb *c"), vec![b"a\tb".to_vec(), b"*c".to_vec()]);
    assert!(split_words(b"").is_empty());
    assert!(split_words(b"   ").is_empty());
}

#[test]
fn a_line_without_words_is_a_command_without_arguments() {
    assert_eq!(parse_frame(b"\r\n"), Frame::Complete { command: command(&[]), consumed: 2 });
    assert_eq!(parse_frame(b"  \r\nx"), Frame::Complete { command: command(&[]), consumed: 4 });
}

#[test]
fn a_line_of_words_is_waited_for_until_its_crlf() {
    assert_eq!(parse_frame(b"x"), Frame::Incomplete);
    assert_eq!(parse_frame(b"get a"), Frame::Incomplete);
    assert_eq!(parse_frame(b"get a\r"), Frame::Incomplete);
    assert_eq!(parse_frame(b"get a\n"), Frame::Incomplete);
    assert_eq!(parse_inline_frame(b""), Frame::Incomplete);
}

#[test]
fn a_line_of_words_may_have_65536_bytes_and_no_more() {
    let mut line = vec![b'a'; 65_536];
    assert_eq!(parse_frame(&line), Frame::Incomplete);
    line.extend_from_slice(b"\r\n");
    assert!(matches!(parse_frame(&line), Frame::Complete { consumed: 65_538, .. }));

    let mut line = vec![b'a'; 65_537];
    assert_eq!(parse_frame(&line), Frame::Malformed);
    line.extend_from_slice(b"\r\n");
    assert_eq!(parse_frame(&line), Frame::Malformed);
}

#[test]
fn a_command_read_as_words_is_written_as_an_array_of_the_same_words() {
    let lines: Vec<&[u8]> = vec![b"set k v\r\n", b"  ping \r\n", b"\r\n", b"blpop q 2\r\nrest"];
    for line in lines {
        match parse_frame(line) {
            Frame::Complete { command: first, .. } => {
                let written = encode_command(&first);
                assert_eq!(written[0], b'*');
                match parse_frame(&written) {
                    Frame::Complete { command: second, consumed } => {
                        assert_eq!(second, first);
                        assert_eq!(consumed, written.len());
                    }
                    other => panic!("unexpected {:?}", other),
                }
            }
            other => panic!("unexpected {:?}", other),
        }
    }
}

#[test]
fn an_array_is_not_read_as_words() {
    assert_eq!(parse_inline_frame(b"*1\r\n"), Frame::Complete { command: command(&[b"*1"]), consumed: 4 });
    assert_eq!(parse_frame(b"*1\r\n"), Frame::Incomplete);
    assert_eq!(parse_array_frame(b"get a\r\n"), Frame::Malformed);
    assert_eq!(parse_array_frame(b""), Frame::Incomplete);
}

#[test]
fn a_wrong_argument_marker_is_malformed() {
    assert_eq!(parse_frame(b"*1\r\n+OK\r\n"), Frame::Malformed);
    assert_eq!(parse_frame(b"*1\r\nx"), Frame::Malformed);
}

#[test]
fn a_length_that_is_no_number_is_malformed() {
    assert_eq!(parse_frame(b"*x\r\n"), Frame::Malformed);
    assert_eq!(parse_frame(b"*\r\n"), Frame::Malformed);
    assert_eq!(parse_frame(b"*-1\r\n"), Frame::Malformed);
    assert_eq!(parse_frame(b"*1 \r\n"), Frame::Malformed);
    assert_eq!(parse_frame(b"*1\r\n$1x\r\na\r\n"), Frame::Malformed);
}

#[test]
fn a_length_with_a_leading_zero_is_malformed() {
    assert_eq!(parse_frame(b"*01\r\n$1\r\na\r\n"), Frame::Malformed);
    assert_eq!(parse_frame(b"*1\r\n$01\r\na\r\n"), Frame::Malformed);
    assert_eq!(parse_frame(b"*00\r\n"), Frame::Malformed);
}

#[test]
fn a_length_of_more_than_ten_digits_is_malformed() {
    assert_eq!(parse_frame(b"*12345678901\r\n"), Frame::Malformed);
    assert_eq!(parse_frame(b"*1\r\n$12345678901\r\n"), Frame::Malformed);
}

#[test]
fn a_length_over_the_limit_is_malformed() {
    assert_eq!(parse_frame(b"*1048577\r\n"), Frame::Malformed);
    assert_eq!(parse_frame(b"*1\r\n$536870913\r\n"), Frame::Malformed);
    assert_eq!(parse_frame(b"*1048576\r\n"), Frame::Incomplete);
    assert_eq!(parse_frame(b"*1\r\n$536870912\r\n"), Frame::Incomplete);
    assert_eq!(parse_frame(b"*9999999999\r\n"), Frame::Malformed);
}

#[test]
fn an_argument_that_does_not_end_in_crlf_is_malformed() {
    assert_eq!(parse_frame(b"*1\r\n$3\r\nGETxx"), Frame::Malformed);
    assert_eq!(parse_frame(b"*1\r\n$3\r\nGET\rx"), Frame::Malformed);
    assert_eq!(parse_frame(b"*1\r\n$3\r\nGET\n\r"), Frame::Malformed);
}

#[test]
fn a_header_line_is_waited_for_until_its_crlf() {
    assert_eq!(parse_frame(b""), Frame::Incomplete);
    assert_eq!(parse_frame(b"*"), Frame::Incomplete);
    assert_eq!(parse_frame(b"*1"), Frame::Incomplete);
    assert_eq!(parse_frame(b"*1\r"), Frame::Incomplete);
    assert_eq!(parse_frame(b"*abc"), Frame::Incomplete);
    assert_eq!(parse_frame(b"*abc\r\n"), Frame::Malformed);
}

#[test]
fn find_line_end_finds_the_first_crlf() {
    assert_eq!(find_line_end(b"ab\r\ncd\r\n", 0), Some(2));
    assert_eq!(find_line_end(b"ab\r\ncd\r\n", 2), Some(2));
    assert_eq!(find_line_end(b"ab\r\ncd\r\n", 3), Some(6));
    assert_eq!(find_line_end(b"ab\r\ncd\r\n", 7), None);
    assert_eq!(find_line_end(b"ab\r", 0), None);
    assert_eq!(find_line_end(b"a\rb\n\r\n", 0), Some(4));
    assert_eq!(find_line_end(b"", 0), None);
}

#[test]
fn read_header_reads_the_length_field() {
    assert_eq!(read_header(b"$12\r\nx", 0, b'$'), Header::Value { value: 12, next: 5 });
    assert_eq!(read_header(b"..*0\r\n", 2, b'*'), Header::Value { value: 0, next: 6 });
    assert_eq!(
        read_header(b"$9999999999\r\n", 0, b'$'),
        Header::Value { value: 9_999_999_999, next: 13 }
    );
    assert_eq!(read_header(b"$12\r\n", 0, b'*'), Header::Malformed);
    assert_eq!(read_header(b"$12\r\n", 5, b'$'), Header::Incomplete);
    assert_eq!(read_header(b"$12", 0, b'$'), Header::Incomplete);
}

#[test]
fn encodes_a_command() {
    assert_eq!(encode_command(&command(&[b"GET", b"a"])), b"*2\r\n$3\r\nGET\r\n$1\r\na\r\n");
    assert_eq!(encode_command(&command(&[])), b"*0\r\n");
    assert_eq!(encode_command(&command(&[b""])), b"*1\r\n$0\r\n\r\n");
    let long = vec![b'x'; 1234];
    let mut expected = b"*1\r\n$1234\r\n".to_vec();
    expected.extend_from_slice(&long);
    expected.extend_from_slice(b"\r\n");
    assert_eq!(encode_command(&command(&[&long])), expected);
}

#[test]
fn parsing_an_encoded_command_gives_the_command_back() {
    let commands = vec![
        command(&[b"PING"]),
        command(&[b"SET", b"key", b"value with spaces"]),
        command(&[b"BLPOP", b"q", b"2"]),
        command(&[b"", b"\r\n", b"$5\r\nhello\r\n", b"*1\r\n"]),
        command(&[]),
        command(&[&[0u8, 1, 2, 255, 254][..]]),
    ];
    for c in commands {
        let mut bytes = encode_command(&c);
        let len = bytes.len();
        bytes.extend_from_slice(b"*1\r\n$4\r\nNEXT");
        match parse_frame(&bytes) {
            Frame::Complete { command, consumed } => {
                assert_eq!(command, c);
                assert_eq!(consumed, len);
            }
            other => panic!("unexpected {:?}", other),
        }
    }
}

#[test]
fn encoding_a_parsed_command_gives_the_bytes_back() {
    let frames: Vec<&[u8]> = vec![
        b"*1\r\n$4\r\nPING\r\n",
        b"*3\r\n$3\r\nSET\r\n$1\r\nk\r\n$0\r\n\r\n",
        b"*2\r\n$5\r\nLPUSH\r\n$10\r\n0123456789\r\n",
        b"*0\r\n",
    ];
    for frame in frames {
        match parse_frame(frame) {
            Frame::Complete { command, consumed } => {
                assert_eq!(consumed, frame.len());
                assert_eq!(encode_command(&command), frame);
            }
            other => panic!("unexpected {:?}", other),
        }
    }
}

#[test]
fn push_decimal_writes_numbers_without_leading_zeros() {
    let cases: Vec<(u64, &[u8])> = vec![
        (0, b"0"),
        (7, b"7"),
        (9, b"9"),
        (10, b"10"),
        (99, b"99"),
        (100, b"100"),
        (536_870_912, b"536870912"),
        (u64::MAX, b"18446744073709551615"),
    ];
    for (n, text) in cases {
        let mut out = b">".to_vec();
        push_decimal(&mut out, n);
        assert_eq!(&out[..1], b">");
        assert_eq!(&out[1..], text);
    }
}

#[test]
fn push_header_and_push_bulk_append() {
    let mut out = b"x".to_vec();
    push_header(&mut out, b'*', 12);
    assert_eq!(out, b"x*12\r\n");
    push_bulk(&mut out, b"hello");
    assert_eq!(out, b"x*12\r\n$5\r\nhello\r\n");
}

#[test]
fn a_frame_of_exactly_the_limit_is_accepted() {
    let frame = encode_command(&command(&[b"SET", b"key", b"value"]));
    assert_eq!(frame.len(), 33);
    match take_frame(&frame, 33) {
        Intake::Accept { command: c, consumed } => {
            assert_eq!(c, command(&[b"SET", b"key", b"value"]));
            assert_eq!(consumed, 33);
        }
        other => panic!("unexpected {:?}", other),
    }
    assert!(matches!(take_frame(&frame, 34), Intake::Accept { .. }));
    assert!(matches!(take_frame(&frame, usize::MAX), Intake::Accept { .. }));
}

#[test]
fn a_frame_of_one_byte_over_the_limit_is_rejected_as_a_protocol_error() {
    let frame = encode_command(&command(&[b"SET", b"key", b"value"]));
    assert_eq!(take_frame(&frame, 32), Intake::Refuse(FrameError::FrameTooLarge));
    assert_eq!(FrameError::FrameTooLarge.kind(), ErrorKind::ProtocolError);
    assert_eq!(take_frame(&frame, 0), Intake::Refuse(FrameError::FrameTooLarge));
}

#[test]
fn a_frame_that_is_not_whole_is_waited_for_up_to_the_limit() {
    let frame = encode_command(&command(&[b"SET", b"key", b"value"]));
    assert_eq!(take_frame(&frame[..10], 33), Intake::Wait);
    assert_eq!(take_frame(&frame[..10], 10), Intake::Wait);
    assert_eq!(take_frame(&frame[..10], 9), Intake::Refuse(FrameError::FrameTooLarge));
    assert_eq!(take_frame(b"", 0), Intake::Wait);
}

#[test]
fn the_limit_holds_for_one_frame_not_for_the_buffer() {
    let mut buf = encode_command(&command(&[b"PING"]));
    let one = buf.len();
    buf.extend_from_slice(&encode_command(&command(&[b"PING"])));
    assert!(matches!(take_frame(&buf, one), Intake::Accept { consumed, .. } if consumed == one));
}

#[test]
fn a_malformed_frame_is_rejected_whatever_the_limit() {
    assert_eq!(take_frame(b"*hello\r\n", 100), Intake::Refuse(FrameError::Malformed));
    assert_eq!(take_frame(b"*hello\r\n", 0), Intake::Refuse(FrameError::Malformed));
    assert!(matches!(take_frame(b"hello\r\n", 7), Intake::Accept { consumed: 7, .. }));
    assert_eq!(take_frame(b"hello\r\n", 6), Intake::Refuse(FrameError::FrameTooLarge));
    assert_eq!(FrameError::Malformed.kind(), ErrorKind::ProtocolError);
}

#[test]
fn encodes_each_kind_of_reply() {
    assert_eq!(encode_reply(&Reply::Nil), b"$-1\r\n");
    assert_eq!(encode_reply(&Reply::Okay), b"+OK\r\n");
    assert_eq!(encode_reply(&Reply::Status(b"PONG".to_vec())), b"+PONG\r\n");
    assert_eq!(encode_reply(&Reply::Integer(0)), b":0\r\n");
    assert_eq!(encode_reply(&Reply::Integer(42)), b":42\r\n");
    assert_eq!(encode_reply(&Reply::Integer(-1)), b":-1\r\n");
    assert_eq!(encode_reply(&Reply::Integer(-120)), b":-120\r\n");
    assert_eq!(encode_reply(&Reply::Integer(i64::MAX)), b":9223372036854775807\r\n");
    assert_eq!(encode_reply(&Reply::Integer(i64::MIN)), b":-9223372036854775808\r\n");
    assert_eq!(encode_reply(&Reply::Data(b"value".to_vec())), b"$5\r\nvalue\r\n");
    assert_eq!(encode_reply(&Reply::Data(Vec::new())), b"$0\r\n\r\n");
    assert_eq!(
        encode_reply(&Reply::List(vec![b"q".to_vec(), b"v1".to_vec()])),
        b"*2\r\n$1\r\nq\r\n$2\r\nv1\r\n"
    );
    assert_eq!(encode_reply(&Reply::List(Vec::new())), b"*0\r\n");
    assert_eq!(
        encode_reply(&Reply::Error(b"unknown command 'FOO'".to_vec())),
        b"-ERR unknown command 'FOO'\r\n"
    );
}
