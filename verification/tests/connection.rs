use word_solver::connection::{Action, Connection, Event, Phase};
use word_solver::messages::{SolverKind, WordRequest, WordsReply};
use word_solver::solver::NaiveSolver;

const HELLO_WORDS: [&str; 32] = [
    "ee", "eel", "eh", "el", "ell", "he", "heel", "heh", "hele", "hell", "hellhole", "hello",
    "helo", "ho", "hoe", "hoh", "hole", "hollo", "holloo", "holo", "hoo", "lee", "lo", "loll",
    "loo", "oe", "oh", "oho", "ole", "oleo", "oo", "ooh",
];

/// A dictionary that holds the words above among others that need a
/// letter outside "hello".
fn hello_dictionary() -> NaiveSolver {
    let mut list: Vec<String> = Vec::new();
    for word in HELLO_WORDS {
        list.push(word.to_string());
        list.push(format!("{word}x"));
        list.push(format!("a{word}"));
    }
    list.sort();
    NaiveSolver::new(&list.join("\n"))
}

fn frame_of(letters: &str, kind: SolverKind) -> Vec<u8> {
    let mut dst = Vec::new();
    WordRequest::new(letters.to_string(), kind).encode_length_delimited(&mut dst);
    dst
}

fn reply_of(words: &[&str]) -> Vec<u8> {
    let mut dst = Vec::new();
    WordsReply { words: words.iter().map(|w| w.to_string()).collect() }
        .encode_length_delimited(&mut dst);
    dst
}

/// Writes out all that the connection has to, at most `piece` bytes at a
/// time, and returns the bytes written and the action that ended it.
fn flush(
    connection: &mut Connection,
    solver: &NaiveSolver,
    mut action: Action,
    piece: usize,
    out: &mut Vec<u8>,
) -> Action {
    while action == Action::Write {
        assert_eq!(connection.phase(), Phase::Writing);
        let pending = connection.pending();
        assert!(!pending.is_empty());
        let n = pending.len().min(piece);
        out.extend_from_slice(&pending[..n]);
        action = connection.handle(solver, Event::Wrote(n));
    }
    action
}

/// Hands `reads` to a new connection and returns all it wrote and the
/// last action.
fn run(solver: &NaiveSolver, reads: &[&[u8]], piece: usize) -> (Vec<u8>, Action) {
    let mut connection = Connection::new();
    let mut out = Vec::new();
    let mut action = Action::Read;
    for bytes in reads {
        if action != Action::Read {
            break;
        }
        action = connection.handle(solver, Event::Read(bytes));
        action = flush(&mut connection, solver, action, piece, &mut out);
    }
    (out, action)
}

#[test]
fn test_server_reading() {
    let solver = hello_dictionary();
    let encoded = frame_of("hello", SolverKind::Ouija);
    let (out, action) = run(&solver, &[&encoded], 4098);
    assert_eq!(action, Action::Read);
    let (reply_msg, reply_len) = WordsReply::decode_length_delimited(&out).unwrap();
    assert_eq!(reply_len, out.len());
    assert_eq!(
        reply_msg,
        WordsReply {
            words: vec![
                "ee", "eel", "eh", "el", "ell", "he", "heel", "heh", "hele", "hell",
                "hellhole", "hello", "helo", "ho", "hoe", "hoh", "hole", "hollo", "holloo",
                "holo", "hoo", "lee", "lo", "loll", "loo", "oe", "oh", "oho", "ole", "oleo",
                "oo", "ooh"
            ]
            .iter()
            .map(|s| s.to_string())
            .collect()
        }
    );
}

#[test]
fn test_server_reading_very_large_response() {
    let mut words: Vec<String> = Vec::new();
    for a in 'a'..='z' {
        for b in 'a'..='z' {
            for c in 'a'..='z' {
                words.push(format!("{a}{b}{c}{a}{b}{c}{a}{b}"));
            }
        }
    }
    words.sort();
    let solver = NaiveSolver::new(&words.join("\n"));
    let encoded = frame_of("abcdefghijklmnopqrstuvwxyz", SolverKind::Ouija);
    let mut connection = Connection::new();
    let mut action = connection.handle(&solver, Event::Read(&encoded));
    let mut read_buf: Vec<u8> = Vec::new();
    let mut parsed_reply: Option<WordsReply> = None;
    let mut writes = 0;
    while action == Action::Write {
        let pending = connection.pending();
        let n = pending.len().min(4098);
        read_buf.extend_from_slice(&pending[..n]);
        action = connection.handle(&solver, Event::Wrote(n));
        writes += 1;
        if let Ok((reply_msg, _)) = WordsReply::decode_length_delimited(&read_buf) {
            parsed_reply = Some(reply_msg);
        } else {
            assert_eq!(action, Action::Write);
        }
    }
    assert_eq!(action, Action::Read);
    assert!(read_buf.len() > 4096);
    assert_eq!(read_buf.len(), 3 + 17576 * 10);
    assert_eq!(writes, (read_buf.len() + 4097) / 4098);
    assert_eq!(parsed_reply.unwrap(), WordsReply { words });
}

#[test]
fn new_connection_reads() {
    let connection = Connection::new();
    assert_eq!(connection.phase(), Phase::Reading);
    assert!(connection.pending().is_empty());
}

#[test]
fn request_split_into_single_bytes_gets_the_same_reply() {
    let solver = hello_dictionary();
    let mut stream = frame_of("hello", SolverKind::Ouija);
    stream.extend_from_slice(&frame_of("olleh", SolverKind::Scrabble));
    let (whole, action) = run(&solver, &[&stream], usize::MAX);
    assert_eq!(action, Action::Read);
    let bytes: Vec<&[u8]> = stream.chunks(1).collect();
    assert_eq!(run(&solver, &bytes, usize::MAX), (whole.clone(), Action::Read));
    for size in [2, 3, 5, 7, 8, 9, 15, 16, 17] {
        let reads: Vec<&[u8]> = stream.chunks(size).collect();
        assert_eq!(run(&solver, &reads, usize::MAX), (whole.clone(), Action::Read));
        assert_eq!(run(&solver, &reads, 1), (whole.clone(), Action::Read));
    }
    let mut expected = reply_of(&HELLO_WORDS);
    expected.extend_from_slice(&reply_of(&[
        "eh", "el", "ell", "he", "hell", "hello", "helo", "ho", "hoe", "hole", "lo", "oe", "oh",
        "ole",
    ]));
    assert_eq!(whole, expected);
}

#[test]
fn partial_request_waits_for_the_rest() {
    let solver = hello_dictionary();
    let encoded = frame_of("hello", SolverKind::Ouija);
    let mut connection = Connection::new();
    assert_eq!(connection.handle(&solver, Event::Read(&encoded[..3])), Action::Read);
    assert_eq!(connection.phase(), Phase::Reading);
    assert!(connection.pending().is_empty());
    assert_eq!(connection.handle(&solver, Event::Read(&encoded[3..])), Action::Write);
    assert_eq!(connection.phase(), Phase::Writing);
    assert_eq!(connection.pending().to_vec(), reply_of(&HELLO_WORDS));
}

#[test]
fn back_to_back_requests_are_answered_in_order() {
    let solver = NaiveSolver::new("aba\naabb\nab\nhe\nhell");
    let mut stream = frame_of("aab", SolverKind::Scrabble);
    stream.extend_from_slice(&frame_of("hel", SolverKind::Ouija));
    let mut connection = Connection::new();
    assert_eq!(connection.handle(&solver, Event::Read(&stream)), Action::Write);
    let first = connection.pending().to_vec();
    assert_eq!(first, reply_of(&["aba", "ab"]));
    // the second request waits until the first reply is out
    assert_eq!(connection.handle(&solver, Event::Wrote(first.len() - 1)), Action::Write);
    assert_eq!(connection.pending().to_vec(), first[first.len() - 1..].to_vec());
    assert_eq!(connection.handle(&solver, Event::Wrote(1)), Action::Write);
    let second = connection.pending().to_vec();
    assert_eq!(second, reply_of(&["he", "hell"]));
    assert_eq!(connection.handle(&solver, Event::Wrote(second.len())), Action::Read);
    assert_eq!(connection.phase(), Phase::Reading);
}

#[test]
fn same_request_twice_gets_the_same_bytes() {
    let solver = hello_dictionary();
    let encoded = frame_of("hello", SolverKind::Scrabble);
    let mut connection = Connection::new();
    let mut replies = Vec::new();
    for _ in 0..3 {
        let mut out = Vec::new();
        let action = connection.handle(&solver, Event::Read(&encoded));
        let action = flush(&mut connection, &solver, action, 7, &mut out);
        assert_eq!(action, Action::Read);
        replies.push(out);
    }
    assert_eq!(replies[0], replies[1]);
    assert_eq!(replies[1], replies[2]);
    assert!(!replies[0].is_empty());
}

#[test]
fn empty_reply_is_still_a_frame() {
    let solver = hello_dictionary();
    let mut connection = Connection::new();
    let encoded = frame_of("", SolverKind::Ouija);
    assert_eq!(encoded, vec![0]);
    assert_eq!(connection.handle(&solver, Event::Read(&encoded)), Action::Write);
    assert_eq!(connection.pending().to_vec(), vec![0]);
    assert_eq!(connection.handle(&solver, Event::Wrote(1)), Action::Read);
}

#[test]
fn write_that_takes_nothing_is_tried_again() {
    let solver = hello_dictionary();
    let mut connection = Connection::new();
    let encoded = frame_of("he", SolverKind::Ouija);
    assert_eq!(connection.handle(&solver, Event::Read(&encoded)), Action::Write);
    let pending = connection.pending().to_vec();
    assert_eq!(connection.handle(&solver, Event::Wrote(0)), Action::Write);
    assert_eq!(connection.pending().to_vec(), pending);
}

#[test]
fn end_of_input_closes() {
    let solver = hello_dictionary();
    let mut connection = Connection::new();
    assert_eq!(connection.handle(&solver, Event::Read(&[])), Action::Close);
    assert_eq!(connection.phase(), Phase::Closed);
    // a closed connection stays closed
    let encoded = frame_of("hello", SolverKind::Ouija);
    assert_eq!(connection.handle(&solver, Event::Read(&encoded)), Action::Close);
    assert_eq!(connection.handle(&solver, Event::Wrote(1)), Action::Close);
    assert_eq!(connection.phase(), Phase::Closed);
    assert!(connection.pending().is_empty());
}

#[test]
fn failed_read_closes() {
    let solver = hello_dictionary();
    let mut connection = Connection::new();
    let encoded = frame_of("hello", SolverKind::Ouija);
    assert_eq!(connection.handle(&solver, Event::Read(&encoded[..2])), Action::Read);
    assert_eq!(connection.handle(&solver, Event::ReadFailed), Action::Close);
    assert_eq!(connection.phase(), Phase::Closed);
}

#[test]
fn failed_write_closes() {
    let solver = hello_dictionary();
    let mut connection = Connection::new();
    let encoded = frame_of("hello", SolverKind::Ouija);
    assert_eq!(connection.handle(&solver, Event::Read(&encoded)), Action::Write);
    assert_eq!(connection.handle(&solver, Event::WriteFailed), Action::Close);
    assert_eq!(connection.phase(), Phase::Closed);
    assert!(connection.pending().is_empty());
}

#[test]
fn malformed_request_closes() {
    let solver = hello_dictionary();
    let mut connection = Connection::new();
    assert_eq!(connection.handle(&solver, Event::Read(&[3, 10, 1, 0xff])), Action::Close);
    assert_eq!(connection.phase(), Phase::Closed);
}

#[test]
fn malformed_request_after_a_good_one_closes_once_the_reply_is_out() {
    let solver = hello_dictionary();
    let mut stream = frame_of("he", SolverKind::Ouija);
    stream.extend_from_slice(&[2, 8, 1]);
    let (out, action) = run(&solver, &[&stream], 3);
    assert_eq!(out, reply_of(&["ee", "eh", "he", "heh"]));
    assert_eq!(action, Action::Close);
}

#[test]
fn event_out_of_phase_closes() {
    let solver = hello_dictionary();
    let mut connection = Connection::new();
    assert_eq!(connection.handle(&solver, Event::Wrote(1)), Action::Close);
    assert_eq!(connection.phase(), Phase::Closed);
    let mut connection = Connection::new();
    let encoded = frame_of("hello", SolverKind::Ouija);
    assert_eq!(connection.handle(&solver, Event::Read(&encoded)), Action::Write);
    assert_eq!(connection.handle(&solver, Event::Read(&encoded)), Action::Close);
    assert_eq!(connection.phase(), Phase::Closed);
    let mut connection = Connection::new();
    assert_eq!(connection.handle(&solver, Event::WriteFailed), Action::Close);
}

#[test]
fn write_that_reports_too_much_counts_as_done() {
    let solver = hello_dictionary();
    let mut connection = Connection::new();
    let encoded = frame_of("he", SolverKind::Ouija);
    assert_eq!(connection.handle(&solver, Event::Read(&encoded)), Action::Write);
    assert_eq!(connection.handle(&solver, Event::Wrote(usize::MAX)), Action::Read);
    assert_eq!(connection.phase(), Phase::Reading);
}
