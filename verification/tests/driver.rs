use uring_cat::driver::{Action, Driver, Event, Phase};
use uring_cat::error::Error;
use uring_cat::request::{raw_fds, IORequest, Probe};

/// What a run asked for and printed.
struct Outcome {
    entries: Option<u32>,
    reads: Vec<(i32, u64, u64, usize)>,
    printed: String,
    error: Option<Error>,
}

/// Runs the driver over files of these contents against a ring that does all
/// that it is asked: the file at position `i` is open at descriptor `3 + i`.
fn cat(contents: &[&[u8]]) -> Outcome {
    let probes: Vec<Probe> = contents
        .iter()
        .enumerate()
        .map(|(i, content)| Probe::Opened { fd: 3 + i as i32, size: content.len() as u64 })
        .collect();
    let mut driver = Driver::new(raw_fds(&probes).unwrap());
    let mut outcome = Outcome { entries: None, reads: Vec::new(), printed: String::new(), error: None };
    let mut in_flight: Option<(u64, Vec<[u8; 512]>)> = None;
    let mut event = Event::Start;
    loop {
        let (next, action) = driver.step(event);
        driver = next;
        event = match action {
            Action::Setup { entries } => {
                outcome.entries = Some(entries);
                Event::RingReady
            }
            Action::Submit { fd, offset, user_data, mut bufs } => {
                assert!(in_flight.is_none());
                assert!(bufs.iter().all(|buf| buf.iter().all(|byte| *byte == 0)));
                outcome.reads.push((fd, offset, user_data, bufs.len()));
                let content = contents[(fd - 3) as usize];
                for (buf, piece) in bufs.iter_mut().zip(content.chunks(512)) {
                    buf[..piece.len()].copy_from_slice(piece);
                }
                in_flight = Some((user_data, bufs));
                Event::Submitted
            }
            Action::Wait => {
                let (user_data, bufs) = in_flight.take().unwrap();
                Event::Completed { user_data, result: 0, bufs }
            }
            Action::Emit { text } => {
                outcome.printed.push_str(&text);
                Event::Written
            }
            Action::Finish => {
                assert_eq!(driver.phase(), Phase::Finished);
                return outcome;
            }
            Action::Abort { error } => {
                assert_eq!(driver.phase(), Phase::Failed { error });
                outcome.error = Some(error);
                return outcome;
            }
        };
    }
}

fn without_padding(text: &str) -> String {
    text.replace('\0', "")
}

/// A driver with one request of `size` bytes at descriptor 3, stepped up to
/// the point at which its read is in flight, and the buffers handed out.
fn in_flight(size: u64) -> (Driver, Vec<[u8; 512]>) {
    let driver = Driver::new(vec![IORequest::new(3, size)]);
    let (driver, action) = driver.step(Event::Start);
    assert_eq!(action, Action::Setup { entries: 1 });
    let (driver, action) = driver.step(Event::RingReady);
    let bufs = match action {
        Action::Submit { bufs, .. } => bufs,
        other => panic!("no read handed out: {:?}", other),
    };
    let (driver, action) = driver.step(Event::Submitted);
    assert_eq!(action, Action::Wait);
    (driver, bufs)
}

#[test]
fn hello_txt_prints_its_line_and_a_newline() {
    let outcome = cat(&[b"hi\n"]);
    assert_eq!(outcome.error, None);
    assert_eq!(outcome.reads, vec![(3, 0, 0, 1)]);
    assert_eq!(without_padding(&outcome.printed), "hi\n\n");
    assert_eq!(outcome.printed.matches('\n').count(), 2);
    assert_eq!(outcome.printed, format!("hi\n{}\n", "\0".repeat(509)));
}

#[test]
fn two_files_print_in_argument_order() {
    let outcome = cat(&[b"A", b"B"]);
    assert_eq!(outcome.error, None);
    assert_eq!(outcome.entries, Some(2));
    assert_eq!(outcome.reads, vec![(3, 0, 0, 1), (4, 0, 1, 1)]);
    assert_eq!(without_padding(&outcome.printed), "A\nB\n");
    assert_eq!(outcome.printed, format!("A{0}\nB{0}\n", "\0".repeat(511)));
}

#[test]
fn files_that_fill_their_chunks_print_without_padding() {
    let first = "a".repeat(512);
    let second = "b".repeat(1536);
    let outcome = cat(&[first.as_bytes(), second.as_bytes()]);
    assert_eq!(outcome.error, None);
    assert_eq!(outcome.reads, vec![(3, 0, 0, 1), (4, 0, 1, 3)]);
    assert_eq!(outcome.printed, format!("{}\n{}\n", first, second));
}

#[test]
fn output_is_each_file_then_padding_then_newline() {
    let long = "line\n".repeat(200);
    let outcome = cat(&[b"one", long.as_bytes(), "d\u{e9}j\u{e0}".as_bytes()]);
    assert_eq!(outcome.error, None);
    assert_eq!(
        outcome.printed,
        format!(
            "one{}\n{}{}\n{}{}\n",
            "\0".repeat(509),
            long,
            "\0".repeat(24),
            "d\u{e9}j\u{e0}",
            "\0".repeat(506)
        )
    );
    assert_eq!(without_padding(&outcome.printed), format!("one\n{}\nd\u{e9}j\u{e0}\n", long));
}

#[test]
fn same_files_twice_print_the_same() {
    let files: [&[u8]; 3] = [b"first\n", b"", b"second"];
    let once = cat(&files);
    let again = cat(&files);
    assert_eq!(once.printed, again.printed);
    assert_eq!(once.reads, again.reads);
    assert_eq!(once.error, again.error);
}

#[test]
fn empty_file_is_neither_read_nor_printed() {
    let outcome = cat(&[b""]);
    assert_eq!(outcome.error, None);
    assert_eq!(outcome.entries, Some(1));
    assert!(outcome.reads.is_empty());
    assert_eq!(outcome.printed, "");
}

#[test]
fn empty_file_between_others_keeps_its_tag_unused() {
    let outcome = cat(&[b"A", b"", b"", b"B"]);
    assert_eq!(outcome.error, None);
    assert_eq!(outcome.entries, Some(4));
    assert_eq!(outcome.reads, vec![(3, 0, 0, 1), (6, 0, 3, 1)]);
    assert_eq!(without_padding(&outcome.printed), "A\nB\n");
}

#[test]
fn no_requests_finish_after_setup() {
    let outcome = cat(&[]);
    assert_eq!(outcome.error, None);
    assert_eq!(outcome.entries, Some(0));
    assert!(outcome.reads.is_empty());
    assert_eq!(outcome.printed, "");
}

#[test]
fn undecodable_file_stops_the_run_after_the_files_before_it() {
    let outcome = cat(&[b"ok", &[0xff, 0xff], b"never"]);
    assert_eq!(outcome.error, Some(Error::Decoding));
    assert_eq!(outcome.reads, vec![(3, 0, 0, 1), (4, 0, 1, 1)]);
    assert_eq!(without_padding(&outcome.printed), "ok\n");
}

#[test]
fn driver_starts_created_with_all_requests_pending() {
    let driver = Driver::new(vec![IORequest::new(3, 1), IORequest::new(4, 0)]);
    assert_eq!(driver.phase(), Phase::Created);
    assert_eq!(driver.pending(), 2);
}

#[test]
fn phases_of_one_read() {
    let driver = Driver::new(vec![IORequest::new(3, 1)]);
    let (driver, action) = driver.step(Event::Start);
    assert_eq!(action, Action::Setup { entries: 1 });
    assert_eq!(driver.phase(), Phase::SettingUp);
    let (driver, action) = driver.step(Event::RingReady);
    assert_eq!(
        action,
        Action::Submit { fd: 3, offset: 0, user_data: 0, bufs: vec![[0u8; 512]] }
    );
    assert_eq!(driver.phase(), Phase::Submitting { tag: 0 });
    assert_eq!(driver.pending(), 0);
    let (driver, action) = driver.step(Event::Submitted);
    assert_eq!(action, Action::Wait);
    assert_eq!(driver.phase(), Phase::Waiting { tag: 0 });
    let mut buf = [0u8; 512];
    buf[0] = b'x';
    let (driver, action) =
        driver.step(Event::Completed { user_data: 0, result: 1, bufs: vec![buf] });
    assert_eq!(action, Action::Emit { text: format!("x{}\n", "\0".repeat(511)) });
    assert_eq!(driver.phase(), Phase::Emitting);
    let (driver, action) = driver.step(Event::Written);
    assert_eq!(action, Action::Finish);
    assert_eq!(driver.phase(), Phase::Finished);
}

#[test]
fn reported_byte_count_is_not_looked_at() {
    for result in [0, 1, 512, -9, i32::MAX] {
        let (driver, mut bufs) = in_flight(2);
        bufs[0][0] = b'o';
        bufs[0][1] = b'k';
        let (_, action) = driver.step(Event::Completed { user_data: 0, result, bufs });
        assert_eq!(action, Action::Emit { text: format!("ok{}\n", "\0".repeat(510)) });
    }
}

#[test]
fn ring_that_cannot_be_created_is_a_queue_setup_error() {
    let driver = Driver::new(vec![IORequest::new(3, 1)]);
    let (driver, _) = driver.step(Event::Start);
    let (driver, action) = driver.step(Event::RingFailed);
    assert_eq!(action, Action::Abort { error: Error::QueueSetup });
    assert_eq!(driver.phase(), Phase::Failed { error: Error::QueueSetup });
}

#[test]
fn read_that_cannot_be_submitted_is_a_submission_error() {
    let driver = Driver::new(vec![IORequest::new(3, 1)]);
    let (driver, _) = driver.step(Event::Start);
    let (driver, _) = driver.step(Event::RingReady);
    let (_, action) = driver.step(Event::SubmitFailed);
    assert_eq!(action, Action::Abort { error: Error::Submission });
}

#[test]
fn failed_wait_is_a_completion_wait_error() {
    let (driver, _) = in_flight(1);
    let (_, action) = driver.step(Event::WaitFailed);
    assert_eq!(action, Action::Abort { error: Error::CompletionWait });
}

#[test]
fn invalid_utf8_is_a_decoding_error() {
    let (driver, mut bufs) = in_flight(1);
    bufs[0][0] = 0x80;
    let (_, action) = driver.step(Event::Completed { user_data: 0, result: 1, bufs });
    assert_eq!(action, Action::Abort { error: Error::Decoding });
}

#[test]
fn completion_with_another_tag_is_a_protocol_error() {
    let (driver, bufs) = in_flight(1);
    let (_, action) = driver.step(Event::Completed { user_data: 1, result: 1, bufs });
    assert_eq!(action, Action::Abort { error: Error::Protocol });
}

#[test]
fn event_out_of_turn_is_a_protocol_error() {
    let driver = Driver::new(vec![IORequest::new(3, 1)]);
    let (_, action) = driver.step(Event::RingReady);
    assert_eq!(action, Action::Abort { error: Error::Protocol });
    let (driver, _) = in_flight(1);
    let (_, action) = driver.step(Event::Submitted);
    assert_eq!(action, Action::Abort { error: Error::Protocol });
}

#[test]
fn a_run_given_up_stays_given_up() {
    let (driver, _) = in_flight(1);
    let (driver, _) = driver.step(Event::WaitFailed);
    let (driver, action) = driver.step(Event::Written);
    assert_eq!(action, Action::Abort { error: Error::CompletionWait });
    let (driver, action) = driver.step(Event::Start);
    assert_eq!(action, Action::Abort { error: Error::CompletionWait });
    assert_eq!(driver.phase(), Phase::Failed { error: Error::CompletionWait });
}

#[test]
fn a_finished_run_stays_finished() {
    let driver = Driver::new(vec![IORequest::new(3, 0)]);
    let (driver, _) = driver.step(Event::Start);
    let (driver, action) = driver.step(Event::RingReady);
    assert_eq!(action, Action::Finish);
    let (driver, action) = driver.step(Event::Start);
    assert_eq!(action, Action::Finish);
    assert_eq!(driver.phase(), Phase::Finished);
}
