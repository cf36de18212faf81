use libsurfer::decoders::spi::{SpiSettings, CS, MISO, MOSI, SCLK};
use libsurfer::decoders::{Bit, BitLane, BitOrder, DecodedLane, WordFormat, WordKind};

/// Build the SCLK, MOSI, MISO and CS lanes for a mode-0 transfer of `bytes`,
/// as `(mosi, miso)` pairs, with a half period of 10 time units.
fn mode0_transfer(bytes: &[(u8, u8)]) -> Vec<Option<BitLane>> {
    let half = 10u64;
    let mut sclk = vec![(0u64, Bit::Zero)];
    let mut mosi = vec![(0u64, Bit::Zero)];
    let mut miso = vec![(0u64, Bit::Zero)];
    let cs = vec![(0u64, Bit::One), (half, Bit::Zero)];

    let mut t = half;
    for &(tx, rx) in bytes {
        for bit in (0..8).rev() {
            let b = |v: u8| {
                if (v >> bit) & 1 == 1 {
                    Bit::One
                } else {
                    Bit::Zero
                }
            };
            mosi.push((t, b(tx)));
            miso.push((t, b(rx)));
            sclk.push((t + half, Bit::One));
            sclk.push((t + 2 * half, Bit::Zero));
            t += 2 * half;
        }
    }

    vec![
        Some(BitLane::new(sclk)),
        Some(BitLane::new(mosi)),
        Some(BitLane::new(miso)),
        Some(BitLane::new(cs)),
    ]
}

fn texts(lane: &DecodedLane) -> Vec<String> {
    lane.words.iter().map(|w| w.text.clone()).collect()
}

#[test]
fn decodes_a_mode0_transfer_on_both_directions() {
    let lanes = mode0_transfer(&[(0x9F, 0x00), (0x00, 0xEF), (0x00, 0x40)]);
    let out = SpiSettings::default().decode(&lanes);

    assert_eq!(out.len(), 2);
    assert_eq!(out[0].name, "MOSI");
    assert_eq!(texts(&out[0]), vec!["9F", "00", "00"]);
    assert_eq!(texts(&out[1]), vec!["00", "EF", "40"]);
    assert!(out
        .iter()
        .all(|l| l.words.iter().all(|w| w.kind == WordKind::Data)));
}

#[test]
fn words_are_contiguous_and_ordered() {
    let lanes = mode0_transfer(&[(0x12, 0), (0x34, 0)]);
    let out = SpiSettings::default().decode(&lanes);
    let w = &out[0].words;
    assert_eq!(w.len(), 2);
    assert!(w[0].start < w[0].end);
    assert_eq!(w[0].end, w[1].start, "no gap between consecutive words");
}

#[test]
fn lsb_first_reverses_each_word() {
    let lanes = mode0_transfer(&[(0b1000_0000, 0)]);
    let settings = SpiSettings {
        bit_order: BitOrder::LsbFirst,
        ..Default::default()
    };
    assert_eq!(texts(&settings.decode(&lanes)[0]), vec!["01"]);
}

#[test]
fn word_size_regroups_the_same_bits() {
    let lanes = mode0_transfer(&[(0xAB, 0), (0xCD, 0)]);
    let settings = SpiSettings {
        word_size: 4,
        ..Default::default()
    };
    assert_eq!(texts(&settings.decode(&lanes)[0]), vec!["A", "B", "C", "D"]);
}

/// Mode-1 timing: data is driven on the leading (rising) edge and sampled on
/// the trailing (falling) one.
fn mode1_transfer(bytes: &[u8]) -> Vec<Option<BitLane>> {
    let half = 10u64;
    let mut sclk = vec![(0u64, Bit::Zero)];
    let mut mosi = vec![(0u64, Bit::Zero)];
    let cs = vec![(0u64, Bit::One), (half, Bit::Zero)];

    let mut t = half;
    for &tx in bytes {
        for bit in (0..8).rev() {
            let b = if (tx >> bit) & 1 == 1 {
                Bit::One
            } else {
                Bit::Zero
            };
            sclk.push((t, Bit::One));
            mosi.push((t + 1, b));
            sclk.push((t + half, Bit::Zero));
            t += 2 * half;
        }
    }

    vec![
        Some(BitLane::new(sclk)),
        Some(BitLane::new(mosi)),
        None,
        Some(BitLane::new(cs)),
    ]
}

#[test]
fn cpha_selects_the_other_edge() {
    let mode1 = SpiSettings {
        cpha: true,
        ..Default::default()
    };
    assert_eq!(mode1.mode(), 1);

    let lanes = mode1_transfer(&[0x9F]);
    assert_eq!(texts(&mode1.decode(&lanes)[0]), vec!["9F"]);

    let mode0 = SpiSettings::default();
    assert_ne!(
        texts(&mode0.decode(&lanes)[0]),
        vec!["9F"],
        "mode 0 must not decode mode-1 timing correctly"
    );
}

#[test]
fn mode_round_trips() {
    for m in 0..4u8 {
        let mut s = SpiSettings::default();
        s.set_mode(m);
        assert_eq!(s.mode(), m);
    }
}

#[test]
fn chip_select_gates_decoding() {
    let mut lanes = mode0_transfer(&[(0x9F, 0)]);
    lanes[CS] = Some(BitLane::new(vec![(0, Bit::One)]));
    assert!(SpiSettings::default().decode(&lanes)[0].words.is_empty());
}

#[test]
fn a_word_cut_short_by_chip_select_is_an_error() {
    let mut lanes = mode0_transfer(&[(0x9F, 0)]);
    lanes[CS] = Some(BitLane::new(vec![
        (0, Bit::One),
        (10, Bit::Zero),
        (55, Bit::One),
    ]));
    let out = SpiSettings::default().decode(&lanes);
    assert_eq!(out[0].words.len(), 1);
    assert_eq!(out[0].words[0].kind, WordKind::Error);
    assert!(out[0].words[0].text.contains("of 8 bits"));
}

#[test]
fn invalid_data_bits_poison_only_their_word() {
    let mut lanes = mode0_transfer(&[(0xFF, 0), (0xAB, 0)]);
    if let Some(mosi) = &mut lanes[MOSI] {
        let at = mosi.changes.partition_point(|(t, _)| *t <= 15);
        mosi.changes.insert(at, (15, Bit::Invalid));
    }
    let out = SpiSettings::default().decode(&lanes);
    assert_eq!(out[0].words[0].kind, WordKind::Error);
    assert_eq!(
        out[0].words[1].kind,
        WordKind::Data,
        "later words still decode"
    );
    assert_eq!(out[0].words[1].text, "AB");
}

#[test]
fn missing_data_lane_yields_an_empty_row() {
    let mut lanes = mode0_transfer(&[(0x9F, 0)]);
    lanes[MISO] = None;
    let out = SpiSettings::default().decode(&lanes);
    assert_eq!(texts(&out[0]), vec!["9F"]);
    assert!(out[1].words.is_empty(), "MISO row exists but is empty");
}

#[test]
fn missing_clock_yields_no_words() {
    let mut lanes = mode0_transfer(&[(0x9F, 0)]);
    lanes[SCLK] = None;
    let out = SpiSettings::default().decode(&lanes);
    assert_eq!(out.len(), 2, "rows still exist so the item can be drawn");
    assert!(out.iter().all(|l| l.words.is_empty()));
}

#[test]
fn decoding_without_chip_select_uses_every_clock_edge() {
    let mut lanes = mode0_transfer(&[(0x9F, 0)]);
    lanes[CS] = None;
    assert_eq!(texts(&SpiSettings::default().decode(&lanes)[0]), vec!["9F"]);
}

// Further cases.

#[test]
fn spi_partial_word_at_trace_end_reports_its_bits() {
    // Four clocks only: the word never completes.
    let mut lanes = mode0_transfer(&[(0xF0, 0)]);
    if let Some(sclk) = &mut lanes[SCLK] {
        sclk.changes.truncate(1 + 2 * 4);
    }
    let out = SpiSettings::default().decode(&lanes);
    assert_eq!(texts(&out[0]), vec!["4 of 8 bits"]);
    assert_eq!(out[0].words[0].kind, WordKind::Error);
}

#[test]
fn spi_word_size_is_clamped_to_one_bit() {
    let lanes = mode0_transfer(&[(0b1010_0000, 0)]);
    let settings = SpiSettings {
        word_size: 0,
        format: WordFormat::Binary,
        ..Default::default()
    };
    let out = settings.decode(&lanes);
    assert_eq!(texts(&out[0]), vec!["1", "0", "1", "0", "0", "0", "0", "0"]);
}

#[test]
fn spi_active_high_chip_select_inverts_gating() {
    let mut lanes = mode0_transfer(&[(0x5A, 0)]);
    lanes[CS] = Some(BitLane::new(vec![(0, Bit::Zero), (10, Bit::One)]));
    let active_high = SpiSettings {
        cs_active_low: false,
        ..Default::default()
    };
    assert_eq!(texts(&active_high.decode(&lanes)[0]), vec!["5A"]);
    assert!(SpiSettings::default().decode(&lanes)[0].words.is_empty());
}

#[test]
fn spi_decimal_format_and_lane_names() {
    let lanes = mode0_transfer(&[(200, 7)]);
    let settings = SpiSettings {
        format: WordFormat::Decimal,
        ..Default::default()
    };
    let out = settings.decode(&lanes);
    assert_eq!(texts(&out[0]), vec!["200"]);
    assert_eq!(texts(&out[1]), vec!["7"]);
    assert_eq!(settings.lane_names(), vec!["MOSI".to_string(), "MISO".to_string()]);
}

#[test]
fn spi_set_mode_sets_both_clock_bits() {
    let mut s = SpiSettings::default();
    s.set_mode(3);
    assert!(s.cpol && s.cpha);
    s.set_mode(2);
    assert!(s.cpol && !s.cpha);
}

#[test]
fn spi_without_chip_select_groups_every_edge_into_words() {
    let mut lanes = mode0_transfer(&[(0xAB, 0), (0xCD, 0)]);
    lanes[CS] = None;
    let settings = SpiSettings {
        word_size: 5,
        ..Default::default()
    };
    let out = settings.decode(&lanes);
    assert_eq!(texts(&out[0]), vec!["15", "0F", "06", "1 of 5 bits"]);
    assert_eq!(out[0].words[3].kind, WordKind::Error);
    // Word i starts at rising edge 5i; the rising edges are at 20, 40, ...
    let starts: Vec<u64> = out[0].words.iter().map(|w| w.start).collect();
    assert_eq!(starts, vec![20, 120, 220, 320]);
}
