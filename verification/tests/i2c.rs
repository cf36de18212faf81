use libsurfer::decoders::i2c::{I2cSettings, SDA};
use libsurfer::decoders::{Bit, BitLane, DecodedLane, WordFormat, WordKind};

const HALF: u64 = 10;

fn transaction(addr: u8, read: bool, data: &[u8]) -> Vec<Option<BitLane>> {
    transaction_acked(addr, read, data, true)
}

fn set(v: &mut Vec<(u64, Bit)>, time: u64, bit: Bit) {
    if v.last().map(|c| c.1) != Some(bit) {
        v.push((time, bit));
    }
}

fn clock_bit(scl: &mut Vec<(u64, Bit)>, sda: &mut Vec<(u64, Bit)>, t: &mut u64, bit: Bit) {
    set(sda, *t, bit);
    set(scl, *t + HALF / 2, Bit::One);
    set(scl, *t + HALF / 2 + HALF, Bit::Zero);
    *t += HALF * 2;
}

/// `acked` drives the level the receiver puts on SDA during every
/// acknowledge slot: low acknowledges, high is a NACK.
fn transaction_acked(addr: u8, read: bool, data: &[u8], acked: bool) -> Vec<Option<BitLane>> {
    let ack_bit = if acked { Bit::Zero } else { Bit::One };
    let mut scl = vec![(0u64, Bit::One)];
    let mut sda = vec![(0u64, Bit::One)];
    let mut t = HALF * 2;

    set(&mut sda, t, Bit::Zero);
    set(&mut scl, t + HALF / 2, Bit::Zero);
    t += HALF;

    let frame = (addr << 1) | u8::from(read);
    for i in (0..8).rev() {
        let bit = if (frame >> i) & 1 == 1 {
            Bit::One
        } else {
            Bit::Zero
        };
        clock_bit(&mut scl, &mut sda, &mut t, bit);
    }
    clock_bit(&mut scl, &mut sda, &mut t, ack_bit);

    for &byte in data {
        for i in (0..8).rev() {
            let bit = if (byte >> i) & 1 == 1 {
                Bit::One
            } else {
                Bit::Zero
            };
            clock_bit(&mut scl, &mut sda, &mut t, bit);
        }
        clock_bit(&mut scl, &mut sda, &mut t, ack_bit);
    }

    set(&mut sda, t, Bit::Zero);
    set(&mut scl, t + HALF / 2, Bit::One);
    set(&mut sda, t + HALF, Bit::One);

    vec![Some(BitLane::new(scl)), Some(BitLane::new(sda))]
}

fn texts(lanes: &[DecodedLane]) -> Vec<String> {
    lanes[0].words.iter().map(|w| w.text.clone()).collect()
}

#[test]
fn decodes_a_write_transaction() {
    let lanes = transaction(0x50, false, &[0x00, 0x2A]);
    assert_eq!(
        texts(&I2cSettings::default().decode(&lanes)),
        vec!["S", "50 W", "A", "00", "A", "2A", "A", "P"]
    );
}

#[test]
fn read_transactions_show_the_direction() {
    let lanes = transaction(0x50, true, &[0xFF]);
    let out = texts(&I2cSettings::default().decode(&lanes));
    assert_eq!(out[1], "50 R");
}

#[test]
fn raw_address_frame_can_be_shown_instead() {
    let lanes = transaction(0x50, false, &[]);
    let s = I2cSettings {
        split_address: false,
        ..Default::default()
    };
    assert_eq!(texts(&s.decode(&lanes))[1], "A0");
}

#[test]
fn a_nack_is_flagged() {
    let lanes = transaction_acked(0x50, false, &[0x00], false);
    let out = I2cSettings::default().decode(&lanes);
    assert!(
        texts(&out).contains(&"N".to_string()),
        "an unacknowledged byte must show as N: {:?}",
        texts(&out)
    );
    assert!(out[0].words.iter().any(|w| w.kind == WordKind::Error));
}

#[test]
fn traffic_outside_a_transaction_is_ignored() {
    let mut lanes = transaction(0x50, false, &[0x00]);
    let sda = lanes[SDA].as_ref().unwrap().clone();
    lanes[SDA] = Some(BitLane::new(
        sda.changes
            .into_iter()
            .skip_while(|(t, _)| *t <= HALF * 2)
            .collect(),
    ));
    let out = I2cSettings::default().decode(&lanes);
    assert!(
        !out[0].words.iter().any(|w| w.text.contains('W')),
        "no address should decode without a START: {:?}",
        texts(&out)
    );
}

#[test]
fn missing_a_line_yields_an_empty_row() {
    let mut lanes = transaction(0x50, false, &[0x00]);
    lanes[SDA] = None;
    let out = I2cSettings::default().decode(&lanes);
    assert_eq!(out.len(), 1);
    assert!(out[0].words.is_empty());
}

// Further cases.

#[test]
fn i2c_without_start_only_stops_are_shown() {
    let mut lanes = transaction(0x50, false, &[0x00]);
    let sda = lanes[SDA].as_ref().unwrap().clone();
    lanes[SDA] = Some(BitLane::new(
        sda.changes
            .into_iter()
            .skip_while(|(t, _)| *t <= HALF * 2)
            .collect(),
    ));
    let out = I2cSettings::default().decode(&lanes);
    assert!(texts(&out).iter().all(|t| t == "P"));
}

#[test]
fn i2c_decimal_format_and_token_spans() {
    let lanes = transaction(0x50, false, &[200]);
    let s = I2cSettings {
        format: WordFormat::Decimal,
        ..Default::default()
    };
    let out = s.decode(&lanes);
    assert_eq!(texts(&out), vec!["S", "80 W", "A", "200", "A", "P"]);
    let w = &out[0].words;
    for pair in w.windows(2) {
        assert!(pair[0].start <= pair[1].start);
    }
    // A byte ends at its last clock; an ACK, one clock wide, runs up to the
    // byte after it.
    assert_eq!((w[1].start, w[1].end), (35, 175));
    assert_eq!(w[2].end, w[3].start);
    assert_eq!(s.lane_names(), vec!["Bus".to_string()]);
}

#[test]
fn i2c_invalid_bit_makes_the_byte_x() {
    let mut lanes = transaction(0x50, false, &[0x00]);
    if let Some(sda) = &mut lanes[SDA] {
        // The third data bit of the second byte is latched at 31 + 10*20 + 2*20 + 5.
        let t0 = HALF * 3 + 9 * 2 * HALF + 2 * 2 * HALF;
        let at = sda.changes.partition_point(|(t, _)| *t <= t0);
        sda.changes.insert(at, (t0, Bit::Invalid));
        let at = sda.changes.partition_point(|(t, _)| *t <= t0 + 2 * HALF - 1);
        sda.changes.insert(at, (t0 + 2 * HALF - 1, Bit::Zero));
    }
    let out = I2cSettings::default().decode(&lanes);
    assert!(texts(&out).contains(&"x".to_string()), "{:?}", texts(&out));
}

#[test]
fn i2c_stop_mid_byte_reports_the_bits_received() {
    let mut scl = vec![(0u64, Bit::One)];
    let mut sda = vec![(0u64, Bit::One)];
    let mut t = HALF * 2;
    set(&mut sda, t, Bit::Zero);
    set(&mut scl, t + HALF / 2, Bit::Zero);
    t += HALF;
    for _ in 0..4 {
        clock_bit(&mut scl, &mut sda, &mut t, Bit::One);
    }
    set(&mut sda, t, Bit::Zero);
    set(&mut scl, t + HALF / 2, Bit::One);
    set(&mut sda, t + HALF, Bit::One);
    let lanes = vec![Some(BitLane::new(scl)), Some(BitLane::new(sda))];
    let out = I2cSettings::default().decode(&lanes);
    assert_eq!(texts(&out), vec!["S", "4 of 8 bits", "P"]);
    assert_eq!(out[0].words[1].kind, WordKind::Error);
}

fn clock_byte(scl: &mut Vec<(u64, Bit)>, sda: &mut Vec<(u64, Bit)>, t: &mut u64, byte: u8) {
    for i in (0..8).rev() {
        let bit = if (byte >> i) & 1 == 1 {
            Bit::One
        } else {
            Bit::Zero
        };
        clock_bit(scl, sda, t, bit);
    }
    clock_bit(scl, sda, t, Bit::Zero);
}

#[test]
fn i2c_repeated_start_is_marked() {
    let mut scl = vec![(0u64, Bit::One)];
    let mut sda = vec![(0u64, Bit::One)];
    let mut t = HALF * 2;
    set(&mut sda, t, Bit::Zero);
    set(&mut scl, t + HALF / 2, Bit::Zero);
    t += HALF;
    clock_byte(&mut scl, &mut sda, &mut t, 0x50 << 1);
    // Repeated START: release SDA while SCL is low, raise SCL, pull SDA low.
    set(&mut sda, t, Bit::One);
    set(&mut scl, t + HALF / 2, Bit::One);
    set(&mut sda, t + HALF, Bit::Zero);
    set(&mut scl, t + HALF + HALF / 2, Bit::Zero);
    t += 2 * HALF;
    clock_byte(&mut scl, &mut sda, &mut t, (0x50 << 1) | 1);
    set(&mut sda, t, Bit::Zero);
    set(&mut scl, t + HALF / 2, Bit::One);
    set(&mut sda, t + HALF, Bit::One);
    let lanes = vec![Some(BitLane::new(scl)), Some(BitLane::new(sda))];
    let out = I2cSettings::default().decode(&lanes);
    assert_eq!(texts(&out), vec!["S", "50 W", "A", "Sr", "50 R", "A", "P"]);
}
