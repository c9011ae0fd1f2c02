use word_solver::frame::FrameError;
use word_solver::messages::{SolverKind, WordRequest, WordsReply};

fn request(letters: &str, kind: SolverKind) -> WordRequest {
    WordRequest::new(letters.to_string(), kind)
}

fn reply(words: &[&str]) -> WordsReply {
    WordsReply { words: words.iter().map(|w| w.to_string()).collect() }
}

fn framed(message: &WordRequest) -> Vec<u8> {
    let mut dst = Vec::new();
    message.encode_length_delimited(&mut dst);
    dst
}

#[test]
fn test_message_encodes_to_buffer() {
    let message = WordRequest {
        letters: "hello".to_string(),
        kind: SolverKind::Ouija.to_i32(),
    };
    let mut dst = Vec::new();
    let written = message.encode_length_delimited(&mut dst);
    assert_eq!(dst[..].to_vec(), vec![7, 10, 5, 104, 101, 108, 108, 111]);
    assert_eq!(written, 8);
}

#[test]
fn request_body_is_the_frame_without_its_prefix() {
    let message = request("hello", SolverKind::Ouija);
    assert_eq!(message.encode_to_vec(), vec![10, 5, 104, 101, 108, 108, 111]);
}

#[test]
fn scrabble_kind_is_sent_as_field_two() {
    let message = request("aab", SolverKind::Scrabble);
    assert_eq!(framed(&message), vec![7, 10, 3, 97, 97, 98, 16, 1]);
}

#[test]
fn default_fields_are_not_sent() {
    let message = request("", SolverKind::Ouija);
    assert_eq!(framed(&message), vec![0]);
    assert_eq!(message.encode_to_vec(), Vec::<u8>::new());
}

#[test]
fn negative_kind_takes_ten_bytes() {
    let message = WordRequest { letters: String::new(), kind: -1 };
    assert_eq!(
        framed(&message),
        vec![11, 16, 255, 255, 255, 255, 255, 255, 255, 255, 255, 1]
    );
    let (back, consumed) = WordRequest::decode_length_delimited(&framed(&message)).unwrap();
    assert_eq!(back, message);
    assert_eq!(consumed, 12);
}

#[test]
fn encoding_appends_and_keeps_what_was_there() {
    let mut dst = vec![9, 9];
    let written = request("he", SolverKind::Ouija).encode_length_delimited(&mut dst);
    assert_eq!(dst, vec![9, 9, 4, 10, 2, 104, 101]);
    assert_eq!(written, 5);
}

#[test]
fn long_body_gets_a_two_byte_prefix() {
    let letters = "a".repeat(200);
    let message = request(&letters, SolverKind::Ouija);
    let mut dst = Vec::new();
    let written = message.encode_length_delimited(&mut dst);
    // body: key, two length bytes, 200 letters
    assert_eq!(dst[..5].to_vec(), vec![0xcb, 0x01, 10, 0xc8, 0x01]);
    assert_eq!(dst.len(), 2 + 3 + 200);
    assert_eq!(written, 205);
    let (back, consumed) = WordRequest::decode_length_delimited(&dst).unwrap();
    assert_eq!(back, message);
    assert_eq!(consumed, 205);
}

#[test]
fn request_round_trip() {
    for kind in [SolverKind::Ouija, SolverKind::Scrabble] {
        for letters in ["", "a", "hello", "żółć", "日本語", "a\nb"] {
            let message = request(letters, kind);
            let bytes = framed(&message);
            let (back, consumed) = WordRequest::decode_length_delimited(&bytes).unwrap();
            assert_eq!(back, message);
            assert_eq!(consumed, bytes.len());
            assert_eq!(back.kind(), kind);
            assert_eq!(framed(&back), bytes);
        }
    }
}

#[test]
fn reply_round_trip() {
    for words in [vec![], vec![""], vec!["he"], vec!["he", "", "hell", "hello"], vec!["łódź", "x"]] {
        let message = reply(&words);
        let mut bytes = Vec::new();
        let written = message.encode_length_delimited(&mut bytes);
        assert_eq!(written, bytes.len());
        let (back, consumed) = WordsReply::decode_length_delimited(&bytes).unwrap();
        assert_eq!(back, message);
        assert_eq!(consumed, bytes.len());
        let mut again = Vec::new();
        back.encode_length_delimited(&mut again);
        assert_eq!(again, bytes);
    }
}

#[test]
fn reply_encodes_every_word_as_field_one() {
    let message = reply(&["he", "", "ho"]);
    let mut bytes = Vec::new();
    message.encode_length_delimited(&mut bytes);
    assert_eq!(bytes, vec![10, 10, 2, 104, 101, 10, 0, 10, 2, 104, 111]);
    assert_eq!(message.encode_to_vec(), vec![10, 2, 104, 101, 10, 0, 10, 2, 104, 111]);
}

#[test]
fn decode_reports_only_the_first_frame() {
    let mut bytes = framed(&request("hello", SolverKind::Ouija));
    bytes.extend_from_slice(&framed(&request("aab", SolverKind::Scrabble)));
    bytes.push(0x80);
    let (first, consumed) = WordRequest::decode_length_delimited(&bytes).unwrap();
    assert_eq!(first, request("hello", SolverKind::Ouija));
    assert_eq!(consumed, 8);
    let (second, consumed) = WordRequest::decode_length_delimited(&bytes[8..]).unwrap();
    assert_eq!(second, request("aab", SolverKind::Scrabble));
    assert_eq!(consumed, 8);
    assert_eq!(
        WordRequest::decode_length_delimited(&bytes[16..]),
        Err(FrameError::Incomplete)
    );
}

#[test]
fn every_strict_prefix_of_a_frame_is_incomplete() {
    let bytes = framed(&request(&"ab".repeat(100), SolverKind::Scrabble));
    for cut in 0..bytes.len() {
        assert_eq!(
            WordRequest::decode_length_delimited(&bytes[..cut]),
            Err(FrameError::Incomplete),
            "cut at {cut}"
        );
    }
    assert!(WordRequest::decode_length_delimited(&bytes).is_ok());
}

#[test]
fn empty_buffer_is_incomplete() {
    assert_eq!(WordRequest::decode_length_delimited(&[]), Err(FrameError::Incomplete));
    assert_eq!(WordsReply::decode_length_delimited(&[]), Err(FrameError::Incomplete));
}

#[test]
fn unfinished_prefix_is_incomplete_until_ten_bytes() {
    for n in 1..10 {
        assert_eq!(
            WordRequest::decode_length_delimited(&vec![0x80; n]),
            Err(FrameError::Incomplete)
        );
    }
    for n in 10..13 {
        assert_eq!(
            WordRequest::decode_length_delimited(&vec![0x80; n]),
            Err(FrameError::Malformed)
        );
    }
}

#[test]
fn prefix_beyond_64_bits_is_malformed() {
    let mut bytes = vec![0xff; 9];
    bytes.push(0x02);
    assert_eq!(WordRequest::decode_length_delimited(&bytes), Err(FrameError::Malformed));
    // the largest length that a prefix can announce only asks for more input
    let mut bytes = vec![0xff; 9];
    bytes.push(0x01);
    assert_eq!(WordRequest::decode_length_delimited(&bytes), Err(FrameError::Incomplete));
}

#[test]
fn overlong_prefix_counts_its_own_bytes() {
    // length 7 written in two bytes
    let bytes = vec![0x87, 0x00, 10, 5, 104, 101, 108, 108, 111];
    let (message, consumed) = WordRequest::decode_length_delimited(&bytes).unwrap();
    assert_eq!(message, request("hello", SolverKind::Ouija));
    assert_eq!(consumed, 9);
}

#[test]
fn invalid_utf8_is_malformed() {
    assert_eq!(
        WordRequest::decode_length_delimited(&[3, 10, 1, 0xff]),
        Err(FrameError::Malformed)
    );
    assert_eq!(WordRequest::decode(&[10, 2, 0xc3, 0x28]), None);
    assert_eq!(WordsReply::decode(&[10, 1, 0x80]), None);
}

#[test]
fn wrong_wire_type_is_malformed() {
    // letters as a varint
    assert_eq!(WordRequest::decode(&[8, 1]), None);
    // kind as a string
    assert_eq!(WordRequest::decode(&[18, 1, 97]), None);
    // words as a varint
    assert_eq!(WordsReply::decode(&[8, 1]), None);
    assert_eq!(
        WordRequest::decode_length_delimited(&[2, 8, 1]),
        Err(FrameError::Malformed)
    );
}

#[test]
fn field_that_overruns_the_body_is_malformed() {
    // the body is two bytes long, the string in it claims five
    let bytes = vec![2, 10, 5, 104, 101, 108, 108, 111];
    assert_eq!(WordRequest::decode_length_delimited(&bytes), Err(FrameError::Malformed));
    assert_eq!(WordRequest::decode(&[10]), None);
    assert_eq!(WordRequest::decode(&[16]), None);
}

#[test]
fn field_number_zero_and_unknown_wire_types_are_malformed() {
    assert_eq!(WordRequest::decode(&[0, 0]), None);
    assert_eq!(WordRequest::decode(&[2, 0]), None);
    // wire types 6 and 7 of field 3
    for key in [30, 31] {
        assert_eq!(WordRequest::decode(&[key, 0]), None);
    }
    // a key beyond 32 bits
    assert_eq!(WordRequest::decode(&[0x88, 0x80, 0x80, 0x80, 0x10, 0]), None);
}

#[test]
fn unknown_fields_are_skipped() {
    let body = vec![
        24, 7, // field 3, varint
        10, 2, 104, 105, // letters "hi"
        33, 1, 2, 3, 4, 5, 6, 7, 8, // field 4, 64-bit
        45, 1, 2, 3, 4, // field 5, 32-bit
        50, 2, 0xff, 0xff, // field 6, bytes
        16, 1, // kind
    ];
    assert_eq!(WordRequest::decode(&body), Some(request("hi", SolverKind::Scrabble)));
    let body = vec![16, 1, 10, 1, 97, 18, 1, 98, 10, 0];
    assert_eq!(WordsReply::decode(&body), Some(reply(&["a", ""])));
}

#[test]
fn later_occurrence_of_a_field_wins() {
    let body = vec![10, 1, 97, 16, 1, 10, 2, 98, 99, 16, 0];
    assert_eq!(WordRequest::decode(&body), Some(request("bc", SolverKind::Ouija)));
}

#[test]
fn kind_keeps_its_wire_value() {
    let message = WordRequest::decode(&[16, 7]).unwrap();
    assert_eq!(message.kind, 7);
    assert_eq!(message.kind(), SolverKind::Ouija);
    assert_eq!(framed(&message), vec![2, 16, 7]);
    // only the low 32 bits count
    let message = WordRequest::decode(&[16, 0x81, 0x80, 0x80, 0x80, 0x10]).unwrap();
    assert_eq!(message.kind, 1);
    assert_eq!(message.kind(), SolverKind::Scrabble);
}

#[test]
fn solver_kind_wire_values() {
    assert_eq!(SolverKind::Ouija.to_i32(), 0);
    assert_eq!(SolverKind::Scrabble.to_i32(), 1);
    assert_eq!(SolverKind::from_i32(0), Some(SolverKind::Ouija));
    assert_eq!(SolverKind::from_i32(1), Some(SolverKind::Scrabble));
    assert_eq!(SolverKind::from_i32(2), None);
    assert_eq!(SolverKind::from_i32(-1), None);
}

#[test]
fn explicit_defaults_decode_but_are_not_written_back() {
    // the rule sent as 0 and the letters sent as an empty string
    let bytes = vec![4, 16, 0, 10, 0];
    let (message, consumed) = WordRequest::decode_length_delimited(&bytes).unwrap();
    assert_eq!(message, request("", SolverKind::Ouija));
    assert_eq!(consumed, 5);
    assert_eq!(framed(&message), vec![0]);
}

#[test]
fn new_request_holds_letters_and_rule() {
    let message = WordRequest::new("aab".to_string(), SolverKind::Scrabble);
    assert_eq!(message.letters, "aab");
    assert_eq!(message.kind, 1);
    assert_eq!(message.kind(), SolverKind::Scrabble);
}

#[test]
fn unknown_groups_are_skipped() {
    // field 3 as a group: empty, holding fields, holding a group
    assert_eq!(WordRequest::decode(&[27, 28]), Some(request("", SolverKind::Ouija)));
    let body = vec![27, 8, 1, 18, 1, 97, 28, 10, 2, 104, 105, 16, 1];
    assert_eq!(WordRequest::decode(&body), Some(request("hi", SolverKind::Scrabble)));
    let body = vec![10, 1, 97, 27, 35, 36, 45, 1, 2, 3, 4, 28];
    assert_eq!(WordRequest::decode(&body), Some(request("a", SolverKind::Ouija)));
    assert_eq!(WordsReply::decode(&[10, 1, 97, 27, 10, 1, 98, 28]), Some(reply(&["a"])));
}

#[test]
fn broken_groups_are_malformed() {
    // never closed
    assert_eq!(WordRequest::decode(&[27]), None);
    assert_eq!(WordRequest::decode(&[27, 8, 1]), None);
    // closed under another number
    assert_eq!(WordRequest::decode(&[27, 36]), None);
    assert_eq!(WordRequest::decode(&[27, 35, 28, 36]), None);
    // closed without being open
    assert_eq!(WordRequest::decode(&[28]), None);
    assert_eq!(WordRequest::decode(&[27, 28, 28]), None);
    // the known fields may not be groups
    assert_eq!(WordRequest::decode(&[11, 12]), None);
    assert_eq!(WordRequest::decode(&[19, 20]), None);
    // a field cut short inside a group
    assert_eq!(WordRequest::decode(&[27, 10, 5, 97, 28]), None);
}
