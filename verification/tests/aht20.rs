use esp_hal_utils::aht20::{crc8, decode, Aht20, Aht20Error, Aht20Raw};
use esp_hal_utils::bus::{Reply, Request, Session};

/// Seven bytes that say 0x80000 for humidity and 0x66666 for temperature.
const REPLY: [u8; 7] = [0x1c, 0x80, 0x00, 0x06, 0x66, 0x66, 0x5c];

/// Answers a session; a sensor is busy a number of times, and the request at `fails` goes wrong.
/// Returns the requests that were made.
fn answer(session: &mut Session, mut busy: usize, fails: Option<usize>) -> Vec<String> {
    let mut log = Vec::new();
    while let Some(request) = session.request() {
        let failed = fails == Some(log.len());
        let reply = match request {
            Request::Write { address, bytes } => {
                log.push(format!("{:02x} write {:02x?}", address, bytes));
                Reply::Done
            }
            Request::Read { address, len } => {
                log.push(format!("{:02x} read {}", address, len));
                if len == 1 {
                    let status = if busy > 0 { 0x9c } else { 0x1c };
                    busy = busy.saturating_sub(1);
                    Reply::Data(vec![status])
                } else {
                    Reply::Data(REPLY.to_vec())
                }
            }
            Request::Delay(millis) => {
                log.push(format!("delay {}", millis));
                Reply::Done
            }
        };
        session.reply(if failed { Reply::Failed } else { reply });
    }
    log
}

#[test]
fn the_checksum_is_right_on_known_messages() {
    assert_eq!(crc8(b"123456789"), 0xf7);
    assert_eq!(crc8(&[0xbe, 0xef]), 0x92);
    assert_eq!(crc8(&[]), 0xff);
}

#[test]
fn a_message_with_its_checksum_has_checksum_zero() {
    for message in [&b"123456789"[..], &[0xbe, 0xef], &[], &REPLY[..6]] {
        let mut checked = message.to_vec();
        checked.push(crc8(message));
        assert_eq!(crc8(&checked), 0);
    }
}

#[test]
fn every_change_of_one_byte_changes_the_checksum() {
    let message = &REPLY[..6];
    for i in 0..6 {
        for flip in 1..=255u8 {
            let mut other = message.to_vec();
            other[i] ^= flip;
            assert_ne!(crc8(&other), crc8(message));
        }
    }
}

#[test]
fn a_reply_holds_two_numbers() {
    assert_eq!(decode(&REPLY), Ok(Aht20Raw { temp: 0x66666, rh: 0x80000 }));
}

#[test]
fn the_numbers_share_the_fourth_byte() {
    let mut reply = [0x18, 0xff, 0xff, 0xf0, 0x00, 0x00, 0];
    reply[6] = crc8(&reply[..6]);
    assert_eq!(decode(&reply), Ok(Aht20Raw { temp: 0, rh: 0xfffff }));
    let mut reply = [0x18, 0x00, 0x00, 0x0f, 0xff, 0xff, 0];
    reply[6] = crc8(&reply[..6]);
    assert_eq!(decode(&reply), Ok(Aht20Raw { temp: 0xfffff, rh: 0 }));
}

#[test]
fn a_reply_damaged_in_one_byte_is_refused() {
    for i in 0..7 {
        for flip in 1..=255u8 {
            let mut other = REPLY;
            other[i] ^= flip;
            assert_eq!(decode(&other), Err(Aht20Error::CrcError));
        }
    }
}

#[test]
fn bringing_the_sensor_up_resets_and_configures_it() {
    let mut session = Aht20::new(0x38).init();
    let log = answer(&mut session, 0, None);
    assert_eq!(log, vec!["38 write [ba]", "delay 40", "38 write [be, 08, 00]", "delay 10"]);
    assert_eq!(Aht20::init_result(&session), Ok(()));
}

#[test]
fn a_bus_error_stops_bringing_the_sensor_up() {
    for fails in [0, 2] {
        let mut session = Aht20::new(0x38).init();
        let log = answer(&mut session, 0, Some(fails));
        assert_eq!(log.len(), fails + 1);
        assert_eq!(Aht20::init_result(&session), Err(Aht20Error::I2cError));
    }
}

#[test]
fn a_reading_starts_polls_and_fetches() {
    let mut session = Aht20::new(0x38).read();
    let log = answer(&mut session, 2, None);
    assert_eq!(
        log,
        vec![
            "38 write [ac, 33, 00]",
            "38 read 1",
            "delay 10",
            "38 read 1",
            "delay 10",
            "38 read 1",
            "38 read 7",
        ]
    );
    assert_eq!(Aht20::read_result(&session), Ok(Aht20Raw { temp: 0x66666, rh: 0x80000 }));
}

#[test]
fn a_bus_error_stops_a_reading() {
    for fails in [0, 1, 3, 4] {
        let mut session = Aht20::new(0x38).read();
        let log = answer(&mut session, 1, Some(fails));
        assert_eq!(log.len(), fails + 1);
        assert_eq!(Aht20::read_result(&session), Err(Aht20Error::I2cError));
    }
}

#[test]
fn a_reading_with_a_wrong_checksum_fails() {
    let mut session = Aht20::new(0x38).read();
    session.reply(Reply::Done);
    session.reply(Reply::Data(vec![0x1c]));
    session.reply(Reply::Data(vec![0x1c, 0x80, 0x00, 0x06, 0x66, 0x66, 0x5d]));
    assert_eq!(Aht20::read_result(&session), Err(Aht20Error::CrcError));
}
