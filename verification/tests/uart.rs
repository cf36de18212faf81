use libsurfer::decoders::uart::{Parity, UartSettings};
use libsurfer::decoders::{Bit, BitLane, BitOrder, DecodedLane, WordFormat, WordKind};

const PERIOD: u64 = 100;

/// Build an idle-high 8N1 line carrying `bytes`, LSB first, with `gap`
/// bit-times of idle between frames.
fn frames(bytes: &[u8], gap: u64) -> BitLane {
    let mut changes = vec![(0u64, Bit::One)];
    let mut t = PERIOD;
    let push = |changes: &mut Vec<(u64, Bit)>, time: u64, bit: Bit| {
        if changes.last().map(|c| c.1) != Some(bit) {
            changes.push((time, bit));
        }
    };
    for &byte in bytes {
        push(&mut changes, t, Bit::Zero);
        t += PERIOD;
        for i in 0..8 {
            let bit = if (byte >> i) & 1 == 1 {
                Bit::One
            } else {
                Bit::Zero
            };
            push(&mut changes, t, bit);
            t += PERIOD;
        }
        push(&mut changes, t, Bit::One);
        t += PERIOD * (1 + gap);
    }
    BitLane::new(changes)
}

fn settings() -> UartSettings {
    UartSettings {
        bit_period: Some(PERIOD),
        format: WordFormat::Hex,
        ..Default::default()
    }
}

fn texts(lanes: &[DecodedLane]) -> Vec<String> {
    lanes[0].words.iter().map(|w| w.text.clone()).collect()
}

#[test]
fn decodes_8n1() {
    let lanes = vec![Some(frames(&[0x4B, 0x61, 0x68], 2))];
    assert_eq!(texts(&settings().decode(&lanes)), vec!["4B", "61", "68"]);
}

#[test]
fn ascii_format_renders_characters() {
    let lanes = vec![Some(frames(b"Kahuna", 2))];
    let s = UartSettings {
        bit_period: Some(PERIOD),
        ..Default::default()
    };
    assert_eq!(
        texts(&s.decode(&lanes)),
        vec!["'K'", "'a'", "'h'", "'u'", "'n'", "'a'"]
    );
}

#[test]
fn bit_period_is_measured_when_unset() {
    let lanes = vec![Some(frames(&[0x55], 2))];
    let s = UartSettings {
        bit_period: None,
        format: WordFormat::Hex,
        ..Default::default()
    };
    assert_eq!(
        s.resolve_bit_period(lanes[0].as_ref().unwrap()),
        Some(PERIOD)
    );
    assert_eq!(texts(&s.decode(&lanes)), vec!["55"]);
}

#[test]
fn data_bit_transitions_are_not_mistaken_for_start_bits() {
    let lanes = vec![Some(frames(&[0x00, 0xFE], 2))];
    assert_eq!(texts(&settings().decode(&lanes)), vec!["00", "FE"]);
}

#[test]
fn back_to_back_frames_decode() {
    let lanes = vec![Some(frames(&[0x41, 0x42, 0x43], 0))];
    assert_eq!(texts(&settings().decode(&lanes)), vec!["41", "42", "43"]);
}

#[test]
fn a_bad_stop_bit_is_reported_as_framing() {
    let mut line = frames(&[0x4B], 4);
    let stop_at = PERIOD * 10;
    line.changes.retain(|(t, _)| *t != stop_at);
    let out = settings().decode(&[Some(line)]);
    assert_eq!(out[0].words[0].kind, WordKind::Error);
    assert_eq!(out[0].words[0].text, "framing");
}

#[test]
fn parity_is_checked() {
    let lanes = vec![Some(frames(&[0x00], 2))];
    let s = UartSettings {
        parity: Parity::Even,
        ..settings()
    };
    assert!(s.decode(&lanes)[0]
        .words
        .iter()
        .any(|w| w.kind == WordKind::Error));
}

#[test]
fn seven_bit_words_decode() {
    let lanes = vec![Some(frames(&[0xC1], 2))];
    let s = UartSettings {
        data_bits: 7,
        ..settings()
    };
    assert_eq!(texts(&s.decode(&lanes)), vec!["41"]);
}

fn invert(line: &BitLane) -> BitLane {
    BitLane::new(
        line.changes
            .iter()
            .map(|&(t, b)| {
                (
                    t,
                    match b {
                        Bit::One => Bit::Zero,
                        Bit::Zero => Bit::One,
                        Bit::Invalid => Bit::Invalid,
                    },
                )
            })
            .collect(),
    )
}

#[test]
fn idle_low_inverts_the_line() {
    let normal = frames(&[0x4B], 2);
    let inverted = invert(&normal);
    let s = UartSettings {
        idle_high: false,
        ..settings()
    };
    assert_eq!(texts(&s.decode(&[Some(inverted)])), vec!["4B"]);
}

#[test]
fn missing_line_yields_an_empty_row() {
    let out = settings().decode(&[None]);
    assert_eq!(out.len(), 1);
    assert!(out[0].words.is_empty());
}

// Further cases.

#[test]
fn uart_frames_span_start_to_last_stop_bit_and_do_not_overlap() {
    let lanes = vec![Some(frames(&[0x41, 0x42], 0))];
    let out = settings().decode(&lanes);
    let w = &out[0].words;
    assert_eq!(w.len(), 2);
    assert_eq!((w[0].start, w[0].end), (PERIOD, PERIOD + 10 * PERIOD));
    assert!(w[0].end <= w[1].start);
}

#[test]
fn uart_idle_low_reads_the_inverted_line_the_same_for_several_frames() {
    let normal = frames(&[0x00, 0xFF, 0x5A, 0x81], 1);
    let hi = settings().decode(&[Some(normal.clone())]);
    let lo = UartSettings {
        idle_high: false,
        ..settings()
    }
    .decode(&[Some(invert(&normal))]);
    assert_eq!(hi, lo);
}

#[test]
fn uart_parity_bit_is_compared_with_the_data() {
    // 0x01 has one 1 bit, and the generator's stop bit (high) stands where
    // the parity bit is read: even parity wants it set, odd parity clear.
    let lanes = vec![Some(frames(&[0x01], 3))];
    let odd = UartSettings {
        parity: Parity::Odd,
        ..settings()
    };
    let even = UartSettings {
        parity: Parity::Even,
        ..settings()
    };
    assert_eq!(texts(&odd.decode(&lanes)), vec!["parity"]);
    assert_eq!(texts(&even.decode(&lanes)), vec!["01"]);
    assert_eq!(even.decode(&lanes)[0].words[0].kind, WordKind::Data);
}

#[test]
fn uart_invalid_data_bit_gives_x() {
    let mut line = frames(&[0x4B], 2);
    // Mark the middle of the third data bit invalid.
    let at = line.changes.partition_point(|(t, _)| *t <= 330);
    line.changes.insert(at, (330, Bit::Invalid));
    let at = line.changes.partition_point(|(t, _)| *t <= 370);
    line.changes.insert(at, (370, Bit::Zero));
    let out = settings().decode(&[Some(line)]);
    assert_eq!(texts(&out), vec!["x"]);
    assert_eq!(out[0].words[0].kind, WordKind::Error);
}

#[test]
fn uart_zero_bit_period_decodes_nothing_and_msb_first_reverses() {
    let lanes = vec![Some(frames(&[0x01], 2))];
    let zero = UartSettings {
        bit_period: Some(0),
        ..settings()
    };
    assert_eq!(zero.resolve_bit_period(lanes[0].as_ref().unwrap()), None);
    assert!(zero.decode(&lanes)[0].words.is_empty());
    let msb = UartSettings {
        bit_order: BitOrder::MsbFirst,
        ..settings()
    };
    assert_eq!(texts(&msb.decode(&lanes)), vec!["80"]);
    assert_eq!(settings().lane_names(), vec!["Data".to_string()]);
}

#[test]
fn uart_idle_low_reads_an_inverted_line_with_parity() {
    // 0x01 has one 1 bit; the generator's stop bit stands where parity is
    // read, which even parity accepts. Inverted, an idle-low decoder agrees.
    let normal = frames(&[0x01], 3);
    let even = UartSettings {
        parity: Parity::Even,
        ..settings()
    };
    let hi = even.decode(&[Some(normal.clone())]);
    let lo = UartSettings {
        idle_high: false,
        ..even
    }
    .decode(&[Some(invert(&normal))]);
    assert_eq!(texts(&hi), vec!["01"]);
    assert_eq!(hi, lo);
}
