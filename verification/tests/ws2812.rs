use esp_hal_utils::ws2812::{
    encode_pixel, encode_pixel_with_end_marker, Level, Pulse, Step, Ws2812, APB_CLOCK_MHZ,
    MAX_PIXELS, N_PIXEL, QUIET_MICROS, RESET_H, RMT_CHAN_FREQ, RMT_CLK_DIVIDER, T0H, T0L, T1H, T1L,
};

const ZERO: Pulse = Pulse { level1: Level::High, length1: 16, level2: Level::Low, length2: 34 };
const ONE: Pulse = Pulse { level1: Level::High, length1: 32, level2: Level::Low, length2: 18 };
const END: Pulse = Pulse { level1: Level::Low, length1: 0, level2: Level::Low, length2: 0 };
const RESET: Pulse = Pulse { level1: Level::Low, length1: 20000, level2: Level::High, length2: 0 };

/// Carries out everything that a driver asks for; the transmission at `fails` goes wrong.
fn drive(driver: &mut Ws2812, fails: Option<usize>) -> (Vec<u64>, Vec<Vec<Pulse>>) {
    let mut pauses = Vec::new();
    let mut sent: Vec<Vec<Pulse>> = Vec::new();
    loop {
        let ok = match driver.next_step() {
            None => return (pauses, sent),
            Some(Step::Pause(micros)) => {
                pauses.push(*micros);
                true
            }
            Some(Step::Transmit(pulses)) => {
                sent.push(pulses.clone());
                fails != Some(sent.len() - 1)
            }
        };
        driver.step_done(ok);
    }
}

#[test]
fn timings_are_in_ticks() {
    assert_eq!((APB_CLOCK_MHZ, RMT_CLK_DIVIDER, RMT_CHAN_FREQ), (80, 2, 40));
    assert_eq!((T0H, T0L, T1H, T1L, RESET_H), (16, 34, 32, 18, 20000));
    assert_eq!((MAX_PIXELS, N_PIXEL, QUIET_MICROS), (64, 24, 60));
}

#[test]
fn pulses_are_made_of_the_timings() {
    assert_eq!(Pulse::bit(false), ZERO);
    assert_eq!(Pulse::bit(true), ONE);
    assert_eq!(Pulse::end_marker(), END);
    assert_eq!(Pulse::reset(), RESET);
}

#[test]
fn both_bits_last_equally_long() {
    assert_eq!(ZERO.length1 + ZERO.length2, ONE.length1 + ONE.length2);
    assert_ne!(ZERO.length1, ONE.length1);
}

#[test]
fn a_pixel_is_its_bits_from_the_highest() {
    let mut expected = [ZERO; 24];
    expected[0] = ONE;
    expected[22] = ONE;
    expected[23] = ONE;
    assert_eq!(encode_pixel(0x80_0003), expected);
    let pulses = encode_pixel_with_end_marker(0x80_0003);
    assert_eq!(&pulses[..24], &expected);
    assert_eq!(pulses[24], END);
}

#[test]
fn only_the_low_bits_of_a_colour_count() {
    assert_eq!(encode_pixel(0xff12_3456), encode_pixel(0x0012_3456));
    for bit in 0..24 {
        assert_ne!(encode_pixel(0x12_3456 ^ (1 << bit)), encode_pixel(0x12_3456));
    }
}

#[test]
fn a_row_goes_out_in_one_transaction() {
    let words = [0x12_3456, 0, 0xff_ffff];
    let mut driver = Ws2812::new();
    driver.set_n(&words);
    let (pauses, sent) = drive(&mut driver, None);
    assert_eq!(pauses, vec![60, 60]);
    assert_eq!(sent.len(), 1);
    assert_eq!(sent[0].len(), 24 * 3 + 1);
    for (i, word) in words.iter().enumerate() {
        assert_eq!(&sent[0][24 * i..24 * (i + 1)], &encode_pixel(*word));
    }
    assert_eq!(sent[0][72], END);
    assert!(!driver.has_failed());
}

#[test]
fn an_empty_row_is_an_end_marker() {
    let mut driver = Ws2812::new();
    driver.set_n(&[]);
    assert_eq!(drive(&mut driver, None), (vec![60, 60], vec![vec![END]]));
}

#[test]
fn the_longest_row_goes_out_whole() {
    let mut driver = Ws2812::new();
    driver.set_n(&[0xaa_aaaa; MAX_PIXELS]);
    let (_, sent) = drive(&mut driver, None);
    assert_eq!(sent[0].len(), 64 * 24 + 1);
    assert!(sent[0][..64 * 24].iter().all(|pulse| pulse.length1 > 0 && pulse.length2 > 0));
}

#[test]
fn pixels_go_out_one_by_one_between_resets() {
    let mut driver = Ws2812::new();
    driver.set(&[1, 2]);
    let (pauses, sent) = drive(&mut driver, None);
    assert!(pauses.is_empty());
    assert_eq!(
        sent,
        vec![
            vec![RESET, END],
            encode_pixel_with_end_marker(1).to_vec(),
            encode_pixel_with_end_marker(2).to_vec(),
            vec![RESET, END],
        ]
    );
}

#[test]
fn both_ways_send_the_same_pixel_data() {
    let words = [0x01_0203, 0xfe_dcba, 0x80_0001];
    let mut driver = Ws2812::new();
    driver.set_n(&words);
    let (_, whole) = drive(&mut driver, None);
    driver.set(&words);
    let (_, single) = drive(&mut driver, None);
    let joined: Vec<Pulse> =
        single[1..4].iter().flat_map(|pulses| pulses[..24].to_vec()).collect();
    assert_eq!(joined, whole[0][..72].to_vec());
}

#[test]
fn a_failed_transmission_ends_everything() {
    let mut driver = Ws2812::new();
    driver.set(&[1, 2, 3]);
    let (_, sent) = drive(&mut driver, Some(1));
    assert_eq!(sent.len(), 2);
    assert!(driver.has_failed());
    driver.set_n(&[1]);
    assert!(!driver.has_failed());
    let (pauses, sent) = drive(&mut driver, Some(0));
    assert_eq!((pauses.len(), sent.len()), (1, 1));
    assert!(driver.has_failed());
}

#[test]
fn a_new_driver_has_nothing_to_do() {
    let driver = Ws2812::new();
    assert!(driver.next_step().is_none());
    assert!(!driver.has_failed());
}
