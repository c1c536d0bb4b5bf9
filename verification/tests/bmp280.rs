use esp_hal_utils::bmp280::{
    byte_result, decode_calibration, decode_raw, encode_config, encode_ctrl_meas, register_result,
    status_result, verdict, Bme280Error, Bmp280, Calibration, Filter, Mode, Oversample,
    PressureSample, Standby, TempSample,
};
use esp_hal_utils::bus::{Reply, Request, Session};

const MODES: [Mode; 3] = [Mode::Sleep, Mode::Forced, Mode::Normal];

const OVERSAMPLES: [Oversample; 6] = [
    Oversample::Skip,
    Oversample::X1,
    Oversample::X2,
    Oversample::X4,
    Oversample::X8,
    Oversample::X16,
];

const FILTERS: [Filter; 5] = [Filter::Off, Filter::X2, Filter::X4, Filter::X8, Filter::X16];

const STANDBYS: [Standby; 8] = [
    Standby::T0_5,
    Standby::T62_5,
    Standby::T125,
    Standby::T250,
    Standby::T500,
    Standby::T1000,
    Standby::T2000,
    Standby::T4000,
];

/// The calibration data of the data sheet's example.
const CALIB: [u8; 24] = [
    0x70, 0x6b, 0x43, 0x67, 0x18, 0xfc, 0x7d, 0x8e, 0x43, 0xd6, 0xd0, 0x0b, 0x27, 0x0b, 0x8c, 0x00,
    0xf9, 0xff, 0x8c, 0x3c, 0xf8, 0xc6, 0x70, 0x17,
];

/// A sensor on a bus: its registers, how often it will be found busy, and which request fails.
struct Device {
    selected: u8,
    busy: usize,
    fails: Option<usize>,
    log: Vec<String>,
}

impl Device {
    fn new(busy: usize, fails: Option<usize>) -> Self {
        Device { selected: 0, busy, fails, log: Vec::new() }
    }

    fn answer(&mut self, session: &mut Session) {
        while let Some(request) = session.request() {
            let failed = self.fails == Some(self.log.len());
            let reply = match request {
                Request::Write { address, bytes } => {
                    self.log.push(format!("{:02x} write {:02x?}", address, bytes));
                    self.selected = bytes[0];
                    Reply::Done
                }
                Request::Read { address, len } => {
                    self.log.push(format!("{:02x} read {}", address, len));
                    Reply::Data(self.content(len))
                }
                Request::Delay(millis) => {
                    self.log.push(format!("delay {}", millis));
                    Reply::Done
                }
            };
            session.reply(if failed { Reply::Failed } else { reply });
        }
    }

    fn content(&mut self, len: usize) -> Vec<u8> {
        match self.selected {
            0x88 => CALIB[..len].to_vec(),
            0xd0 => vec![0x58],
            0xf3 if self.busy > 0 => {
                self.busy -= 1;
                vec![0x0c]
            }
            0xf3 => vec![0x04],
            0xf4 => vec![0x57],
            0xf5 => vec![0x90],
            0xf7 => vec![0x65, 0x5a, 0xcb],
            0xfa => vec![0x7e, 0xed, 0x10],
            _ => vec![0; len],
        }
    }
}

fn calibrated() -> Bmp280 {
    let mut sensor = Bmp280::new(0x77);
    let mut session = sensor.calibrate();
    Device::new(0, None).answer(&mut session);
    assert_eq!(sensor.store_calibration(&session), Ok(()));
    sensor
}

#[test]
fn settings_have_their_codes() {
    assert_eq!(MODES.map(Mode::code), [0, 1, 3]);
    assert_eq!(OVERSAMPLES.map(Oversample::code), [0, 1, 2, 3, 4, 5]);
    assert_eq!(FILTERS.map(Filter::code), [0, 1, 2, 3, 4]);
    assert_eq!(STANDBYS.map(Standby::code), [0, 1, 2, 3, 4, 5, 6, 7]);
}

#[test]
fn settings_are_packed_into_bytes() {
    assert_eq!(encode_ctrl_meas(Oversample::X1, Oversample::X16, Mode::Normal), 0b001_101_11);
    assert_eq!(encode_ctrl_meas(Oversample::X2, Oversample::X16, Mode::Forced), 0b010_101_01);
    assert_eq!(encode_ctrl_meas(Oversample::Skip, Oversample::X1, Mode::Sleep), 0b000_001_00);
    assert_eq!(encode_config(Standby::T500, Filter::X16), 0b100_100_00);
    assert_eq!(encode_config(Standby::T4000, Filter::X2), 0b111_001_00);
}

#[test]
fn settings_can_be_told_from_their_bytes() {
    let mut bytes = Vec::new();
    for os_t in OVERSAMPLES {
        for os_p in OVERSAMPLES {
            for mode in MODES {
                bytes.push(encode_ctrl_meas(os_t, os_p, mode));
            }
        }
    }
    bytes.sort();
    bytes.dedup();
    assert_eq!(bytes.len(), 6 * 6 * 3);
    let mut bytes = Vec::new();
    for t_sb in STANDBYS {
        for filter in FILTERS {
            bytes.push(encode_config(t_sb, filter));
        }
    }
    bytes.sort();
    bytes.dedup();
    assert_eq!(bytes.len(), 8 * 5);
}

#[test]
fn a_reading_is_twenty_bits() {
    assert_eq!(decode_raw(&[0x7e, 0xed, 0x10]), 0x7eed0);
    assert_eq!(decode_raw(&[0x65, 0x5a, 0xcb]), 0x655ab);
    assert_eq!(decode_raw(&[0xff, 0xff, 0xff]), 0xfffff);
}

#[test]
fn calibration_numbers_are_little_endian_and_mostly_signed() {
    let numbers = decode_calibration(&CALIB);
    let expected = Calibration {
        t: [27504, 26435, -1000],
        p: [36477, -10685, 3024, 2855, 140, -7, 15500, -14600, 6000],
    };
    assert_eq!(numbers, expected);
}

#[test]
fn every_bit_of_the_calibration_data_counts() {
    let numbers = decode_calibration(&CALIB);
    for i in 0..24 {
        for bit in 0..8 {
            let mut other = CALIB;
            other[i] ^= 1 << bit;
            assert_ne!(decode_calibration(&other), numbers);
        }
    }
}

#[test]
fn default_setup_calibrates_and_configures() {
    let mut sensor = Bmp280::new(0x77);
    assert_eq!(sensor.calibration(), None);
    let mut session = sensor.init_default();
    let mut device = Device::new(1, None);
    device.answer(&mut session);
    assert_eq!(
        device.log,
        vec![
            "77 write [88]",
            "77 read 24",
            "77 write [f5, 90]",
            "77 write [f4, 37]",
            "77 write [f3]",
            "77 read 1",
            "delay 10",
            "77 write [f3]",
            "77 read 1",
        ]
    );
    assert_eq!(sensor.store_calibration(&session), Ok(()));
    assert_eq!(sensor.calibration(), Some(decode_calibration(&CALIB)));
}

#[test]
fn low_power_setup_leaves_the_sensor_asleep() {
    let mut session = Bmp280::new(0x76).init_low_power();
    let mut device = Device::new(0, None);
    device.answer(&mut session);
    assert_eq!(
        device.log,
        vec![
            "76 write [88]",
            "76 read 24",
            "76 write [f5, 00]",
            "76 write [f4, 04]",
            "76 write [f3]",
            "76 read 1",
        ]
    );
}

#[test]
fn setup_takes_any_settings() {
    let sensor = Bmp280::new(0x77);
    let mut session =
        sensor.init(Mode::Forced, Oversample::X8, Oversample::X4, Standby::T1000, Filter::X8);
    let mut device = Device::new(0, None);
    device.answer(&mut session);
    assert_eq!(device.log[2], "77 write [f5, ac]");
    assert_eq!(device.log[3], "77 write [f4, 8d]");
}

#[test]
fn a_late_bus_error_in_setup_keeps_the_calibration() {
    let mut sensor = Bmp280::new(0x77);
    let mut session = sensor.init_default();
    let mut device = Device::new(0, Some(2));
    device.answer(&mut session);
    assert_eq!(device.log.len(), 3);
    assert_eq!(sensor.store_calibration(&session), Err(Bme280Error::I2cError));
    assert_eq!(sensor.calibration(), Some(decode_calibration(&CALIB)));
}

#[test]
fn an_early_bus_error_in_setup_keeps_what_was_there() {
    let mut sensor = Bmp280::new(0x77);
    let mut session = sensor.init_default();
    Device::new(0, Some(1)).answer(&mut session);
    assert_eq!(sensor.store_calibration(&session), Err(Bme280Error::I2cError));
    assert_eq!(sensor.calibration(), None);
}

#[test]
fn waiting_polls_the_status() {
    let mut session = Bmp280::new(0x77).wait();
    let mut device = Device::new(2, None);
    device.answer(&mut session);
    assert_eq!(verdict(&session), Ok(()));
    assert_eq!(
        device.log,
        vec![
            "77 write [f3]",
            "77 read 1",
            "delay 10",
            "77 write [f3]",
            "77 read 1",
            "delay 10",
            "77 write [f3]",
            "77 read 1",
        ]
    );
}

#[test]
fn registers_are_read_by_number() {
    let sensor = Bmp280::new(0x77);
    let mut device = Device::new(0, None);
    let mut session = sensor.id();
    device.answer(&mut session);
    assert_eq!(byte_result(&session), Ok(0x58));
    let mut session = sensor.ctrl_meas();
    device.answer(&mut session);
    assert_eq!(byte_result(&session), Ok(0x57));
    let mut session = sensor.config();
    device.answer(&mut session);
    assert_eq!(byte_result(&session), Ok(0x90));
    let mut session = sensor.read_register(0x88, 4);
    device.answer(&mut session);
    assert_eq!(register_result(&session), Ok(vec![0x70, 0x6b, 0x43, 0x67]));
    assert_eq!(
        device.log,
        vec![
            "77 write [d0]",
            "77 read 1",
            "77 write [f4]",
            "77 read 1",
            "77 write [f5]",
            "77 read 1",
            "77 write [88]",
            "77 read 4",
        ]
    );
}

#[test]
fn a_bus_error_stops_reading_a_register() {
    for fails in [0, 1] {
        let mut session = Bmp280::new(0x77).id();
        let mut device = Device::new(0, Some(fails));
        device.answer(&mut session);
        assert_eq!(device.log.len(), fails + 1);
        assert_eq!(byte_result(&session), Err(Bme280Error::I2cError));
        assert_eq!(register_result(&session), Err(Bme280Error::I2cError));
    }
}

#[test]
fn the_status_has_two_bits() {
    for (bits, expected) in [
        (0x00, (false, false)),
        (0x08, (true, false)),
        (0x01, (false, true)),
        (0xff, (true, true)),
        (0xf6, (false, false)),
    ] {
        let mut session = Bmp280::new(0x77).status();
        session.reply(Reply::Done);
        session.reply(Reply::Data(vec![bits]));
        assert_eq!(status_result(&session), Ok(expected));
    }
}

#[test]
fn registers_are_written_by_number() {
    let sensor = Bmp280::new(0x77);
    let mut device = Device::new(0, None);
    let mut session = sensor.reset();
    device.answer(&mut session);
    assert_eq!(verdict(&session), Ok(()));
    let mut session = sensor.set_ctrl_meas(Oversample::X4, Oversample::X2, Mode::Normal);
    device.answer(&mut session);
    assert_eq!(verdict(&session), Ok(()));
    let mut session = sensor.set_config(Standby::T62_5, Filter::X4);
    device.answer(&mut session);
    assert_eq!(verdict(&session), Ok(()));
    assert_eq!(device.log, vec!["77 write [e0, b6]", "77 write [f4, 6b]", "77 write [f5, 28]"]);
    let mut session = sensor.reset();
    Device::new(0, Some(0)).answer(&mut session);
    assert_eq!(verdict(&session), Err(Bme280Error::I2cError));
}

const T: [i32; 3] = [27504, 26435, -1000];
const P: [i32; 9] = [36477, -10685, 3024, 2855, 140, -7, 15500, -14600, 6000];

/// The samples that the device's content stands for.
const TEMP: TempSample = TempSample { raw: 0x7eed0, t: T };
const PRESSURE: PressureSample = PressureSample { raw: 0x655ab, p: P, fine: Some(TEMP) };

#[test]
fn no_reading_without_calibration_data() {
    let mut sensor = Bmp280::new(0x77);
    let session = sensor.temp();
    assert!(session.request().is_none());
    assert_eq!(sensor.temp_result(&session), Err(Bme280Error::NoCalibrationData));
    let session = sensor.pressure();
    assert!(session.request().is_none());
    assert_eq!(sensor.pressure_result(&session), Err(Bme280Error::NoCalibrationData));
    let session = sensor.measure();
    assert!(session.request().is_none());
    assert_eq!(sensor.measurement_result(&session), Err(Bme280Error::NoCalibrationData));
}

#[test]
fn a_forced_measurement_without_calibration_data_only_sets_the_sensor_off() {
    let mut sensor = Bmp280::new(0x77);
    let mut session = sensor.force_measurement();
    let mut device = Device::new(0, None);
    device.answer(&mut session);
    assert_eq!(device.log, vec!["77 write [f4, 55]"]);
    assert_eq!(sensor.measurement_result(&session), Err(Bme280Error::NoCalibrationData));
}

#[test]
fn readings_wait_for_the_sensor() {
    let mut sensor = calibrated();
    let mut session = sensor.temp();
    let mut device = Device::new(1, None);
    device.answer(&mut session);
    assert_eq!(sensor.temp_result(&session), Ok(TEMP));
    assert_eq!(
        device.log,
        vec![
            "77 write [f3]",
            "77 read 1",
            "delay 10",
            "77 write [f3]",
            "77 read 1",
            "77 write [fa]",
            "77 read 3",
        ]
    );
    let mut session = sensor.pressure();
    let mut device = Device::new(0, None);
    device.answer(&mut session);
    assert_eq!(sensor.pressure_result(&session), Ok(PRESSURE));
    assert_eq!(device.log[2], "77 write [f7]");
}

#[test]
fn a_pressure_goes_with_the_last_temperature_taken() {
    let mut sensor = calibrated();
    let pressure = |sensor: &Bmp280| {
        let mut session = sensor.pressure();
        Device::new(0, None).answer(&mut session);
        sensor.pressure_result(&session).unwrap()
    };
    // None has been taken yet.
    assert_eq!(pressure(&sensor), PressureSample { raw: 0x655ab, p: P, fine: None });
    // One that fails does not count.
    let mut session = sensor.temp();
    Device::new(0, Some(3)).answer(&mut session);
    assert_eq!(sensor.temp_result(&session), Err(Bme280Error::I2cError));
    assert_eq!(pressure(&sensor).fine, None);
    // One that was taken counts until the next.
    let mut session = sensor.temp();
    Device::new(0, None).answer(&mut session);
    assert_eq!(sensor.temp_result(&session), Ok(TEMP));
    assert_eq!(pressure(&sensor), PRESSURE);
    assert_eq!(pressure(&sensor), PRESSURE);
    // It keeps the numbers that it was taken with.
    let mut session = sensor.calibrate();
    session.reply(Reply::Done);
    session.reply(Reply::Data(vec![0; 24]));
    assert_eq!(sensor.store_calibration(&session), Ok(()));
    assert_eq!(pressure(&sensor), PressureSample { raw: 0x655ab, p: [0; 9], fine: Some(TEMP) });
}

#[test]
fn a_bus_error_stops_a_sensor_reading() {
    for fails in 0..4 {
        let mut sensor = calibrated();
        let mut session = sensor.temp();
        let mut device = Device::new(0, Some(fails));
        device.answer(&mut session);
        assert_eq!(device.log.len(), fails + 1);
        assert_eq!(sensor.temp_result(&session), Err(Bme280Error::I2cError));
        let mut session = sensor.pressure();
        Device::new(0, Some(fails)).answer(&mut session);
        assert_eq!(sensor.pressure_result(&session), Err(Bme280Error::I2cError));
    }
}

#[test]
fn a_measurement_takes_temperature_then_pressure() {
    let mut sensor = calibrated();
    let mut session = sensor.measure();
    let mut device = Device::new(0, None);
    device.answer(&mut session);
    assert_eq!(sensor.measurement_result(&session), Ok((TEMP, PRESSURE)));
    assert_eq!(
        device.log,
        vec![
            "77 write [f3]",
            "77 read 1",
            "77 write [fa]",
            "77 read 3",
            "77 write [f3]",
            "77 read 1",
            "77 write [f7]",
            "77 read 3",
        ]
    );
}

#[test]
fn a_measurement_that_fails_halfway_keeps_its_temperature() {
    let mut sensor = calibrated();
    let mut session = sensor.measure();
    Device::new(0, Some(6)).answer(&mut session);
    assert_eq!(sensor.measurement_result(&session), Err(Bme280Error::I2cError));
    let mut session = sensor.pressure();
    Device::new(0, None).answer(&mut session);
    assert_eq!(sensor.pressure_result(&session), Ok(PRESSURE));
}

#[test]
fn a_forced_measurement_ends_with_the_sensor_asleep() {
    let mut sensor = calibrated();
    let mut session = sensor.force_measurement();
    let mut device = Device::new(1, None);
    device.answer(&mut session);
    assert_eq!(sensor.measurement_result(&session), Ok((TEMP, PRESSURE)));
    assert_eq!(
        device.log,
        vec![
            "77 write [f4, 55]",
            "77 write [f3]",
            "77 read 1",
            "delay 10",
            "77 write [f3]",
            "77 read 1",
            "77 write [fa]",
            "77 read 3",
            "77 write [f3]",
            "77 read 1",
            "77 write [f7]",
            "77 read 3",
            "77 write [f4, 54]",
        ]
    );
}
