use esp_hal_utils::bus::{Op, Outcome, Reply, Request, Session};

fn is_write(request: &Option<Request>, at: u8, expected: &[u8]) -> bool {
    match request {
        Some(Request::Write { address, bytes }) => *address == at && bytes.as_slice() == expected,
        _ => false,
    }
}

fn is_read(request: &Option<Request>, at: u8, expected: usize) -> bool {
    match request {
        Some(Request::Read { address, len }) => *address == at && *len == expected,
        _ => false,
    }
}

fn is_delay(request: &Option<Request>, expected: u64) -> bool {
    matches!(request, Some(Request::Delay(millis)) if *millis == expected)
}

#[test]
fn no_operations_are_done_at_once() {
    let session = Session::new(0x10, vec![]);
    assert!(session.request().is_none());
    assert_eq!(session.outcome(), Some(Outcome::Complete));
    assert!(session.fetched().is_empty());
}

#[test]
fn operations_ask_for_what_they_say() {
    let ops = vec![
        Op::Write(vec![1, 2]),
        Op::Delay(30),
        Op::Fetch { register: Some(9), len: 2 },
        Op::Fetch { register: None, len: 1 },
    ];
    let mut session = Session::new(0x10, ops);
    assert!(is_write(&session.request(), 0x10, &[1, 2]));
    session.reply(Reply::Done);
    assert!(is_delay(&session.request(), 30));
    session.reply(Reply::Done);
    assert!(is_write(&session.request(), 0x10, &[9]));
    session.reply(Reply::Done);
    assert!(is_read(&session.request(), 0x10, 2));
    session.reply(Reply::Data(vec![5, 6]));
    assert!(is_read(&session.request(), 0x10, 1));
    assert_eq!(session.outcome(), None);
    session.reply(Reply::Data(vec![7]));
    assert!(session.request().is_none());
    assert_eq!(session.outcome(), Some(Outcome::Complete));
    assert_eq!(session.fetched(), &vec![vec![5, 6], vec![7]]);
}

#[test]
fn a_poll_goes_on_until_the_masked_bits_are_clear() {
    let ops = vec![Op::Poll { register: Some(3), mask: 0x0c, pause: 15 }];
    let mut session = Session::new(0x10, ops);
    for busy in [0x04, 0x08, 0xff] {
        assert!(is_write(&session.request(), 0x10, &[3]));
        session.reply(Reply::Done);
        assert!(is_read(&session.request(), 0x10, 1));
        session.reply(Reply::Data(vec![busy]));
        assert!(is_delay(&session.request(), 15));
        session.reply(Reply::Done);
    }
    session.reply(Reply::Done);
    session.reply(Reply::Data(vec![0xf3]));
    assert_eq!(session.outcome(), Some(Outcome::Complete));
    assert!(session.fetched().is_empty());
}

#[test]
fn a_bus_error_ends_a_session() {
    let ops = vec![
        Op::Fetch { register: None, len: 1 },
        Op::Write(vec![1]),
        Op::Write(vec![2]),
    ];
    let mut session = Session::new(0x10, ops);
    session.reply(Reply::Data(vec![8]));
    session.reply(Reply::Failed);
    assert!(session.request().is_none());
    assert_eq!(session.outcome(), Some(Outcome::Failed));
    assert_eq!(session.fetched(), &vec![vec![8]]);
}

#[test]
fn nothing_is_asked_behind_a_halt() {
    let mut session = Session::new(0x10, vec![Op::Write(vec![1]), Op::Halt, Op::Write(vec![2])]);
    assert!(is_write(&session.request(), 0x10, &[1]));
    session.reply(Reply::Done);
    assert!(session.request().is_none());
    assert_eq!(session.outcome(), Some(Outcome::Halted));
}
