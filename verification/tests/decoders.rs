use libsurfer::decoders::spi::{SpiSettings, SCLK};
use libsurfer::decoders::{
    Bit, BitLane, CachedDecode, DecodeKey, DecoderSettings, Protocol, RoleBindings, WordFormat,
};
use libsurfer::wave_container::VariableRef;

fn lane(changes: &[(u64, u8)]) -> BitLane {
    BitLane::new(
        changes
            .iter()
            .map(|&(t, v)| (t, if v == 0 { Bit::Zero } else { Bit::One }))
            .collect(),
    )
}

fn cache_key() -> DecodeKey {
    DecodeKey {
        generation: 1,
        settings: DecoderSettings::for_protocol(Protocol::Spi),
        bindings: RoleBindings {
            signals: vec![None; Protocol::Spi.roles().len()],
        },
        loaded: vec![true; Protocol::Spi.roles().len()],
    }
}

fn cached() -> CachedDecode {
    CachedDecode {
        key: cache_key(),
        lanes: vec![],
    }
}

#[test]
fn a_cached_decode_is_reused_for_an_identical_key() {
    assert!(cached().is_valid_for(&cache_key()));
}

#[test]
fn reloading_the_waveform_invalidates_the_cache() {
    let key = DecodeKey {
        generation: 2,
        ..cache_key()
    };
    assert!(!cached().is_valid_for(&key));
}

#[test]
fn changing_settings_invalidates_the_cache() {
    let mut settings = SpiSettings::default();
    settings.word_size = 4;
    let key = DecodeKey {
        settings: DecoderSettings::Spi(settings),
        ..cache_key()
    };
    assert!(!cached().is_valid_for(&key));
}

#[test]
fn rebinding_a_role_invalidates_the_cache() {
    let mut bindings = cache_key().bindings;
    bindings.signals[SCLK] = Some(VariableRef::from_hierarchy_string("tb.spi.sclk"));
    let key = DecodeKey {
        bindings,
        ..cache_key()
    };
    assert!(!cached().is_valid_for(&key));
}

#[test]
fn a_signal_finishing_loading_invalidates_the_cache() {
    let mut loaded = cache_key().loaded;
    loaded[SCLK] = false;
    let stale = CachedDecode {
        key: DecodeKey {
            loaded,
            ..cache_key()
        },
        lanes: vec![],
    };
    assert!(
        !stale.is_valid_for(&cache_key()),
        "a decode made without data must not survive the data arriving"
    );
}

#[test]
fn value_at_holds_previous_value() {
    let l = lane(&[(10, 1), (20, 0)]);
    assert_eq!(l.value_at(0), None, "before the first transition");
    assert_eq!(l.value_at(10), Some(Bit::One), "at the transition");
    assert_eq!(l.value_at(15), Some(Bit::One), "held between transitions");
    assert_eq!(l.value_at(20), Some(Bit::Zero));
    assert_eq!(l.value_at(9999), Some(Bit::Zero), "held after the last");
}

#[test]
fn edges_to_ignores_repeated_values() {
    let l = lane(&[(0, 0), (10, 1), (20, 1), (30, 0), (40, 1)]);
    assert_eq!(l.edges_to(Bit::One), vec![10, 40]);
    assert_eq!(l.edges_to(Bit::Zero), vec![30]);
}

#[test]
fn word_format_pads_to_width() {
    assert_eq!(WordFormat::Hex.format(0x0A, 8), "0A");
    assert_eq!(WordFormat::Binary.format(0b101, 8), "00000101");
    assert_eq!(WordFormat::Decimal.format(42, 8), "42");
    assert_eq!(WordFormat::Ascii.format(u64::from(b'K'), 8), "'K'");
    assert_eq!(
        WordFormat::Ascii.format(0x00, 8),
        "00",
        "unprintable falls back to hex"
    );
}

#[test]
fn guess_prefers_the_more_specific_alias() {
    let candidates = ["clk", "sclk", "mosi", "miso", "cs_n"]
        .iter()
        .map(|n| VariableRef::from_hierarchy_string(&format!("tb.spi.{n}")))
        .collect::<Vec<_>>();

    let b = RoleBindings::guess(Protocol::Spi, &candidates);
    let roles = Protocol::Spi.roles();
    let named = |name: &str| {
        let i = roles.iter().position(|r| r.name == name).unwrap();
        b.get(i).map(|v| v.name.clone())
    };

    assert_eq!(named("SCLK"), Some("sclk".to_string()));
    assert_eq!(named("MOSI"), Some("mosi".to_string()));
    assert_eq!(named("MISO"), Some("miso".to_string()));
    assert_eq!(named("CS"), Some("cs_n".to_string()));
    assert!(b.missing(Protocol::Spi).is_empty());
}

#[test]
fn missing_reports_only_required_roles() {
    let b = RoleBindings {
        signals: vec![None; Protocol::Spi.roles().len()],
    };
    let missing = b.missing(Protocol::Spi);
    assert!(missing.contains(&"SCLK"));
    assert!(
        !missing.contains(&"MISO"),
        "MISO is optional; a write-only bus still decodes"
    );
}

// Further cases.

#[test]
fn value_at_on_an_empty_lane_is_none_and_edges_need_a_change() {
    let l = lane(&[]);
    assert_eq!(l.value_at(5), None);
    assert!(lane(&[(0, 1)]).edges_to(Bit::One).is_empty());
}

#[test]
fn word_format_covers_the_remaining_cases() {
    assert_eq!(WordFormat::Hex.format(0xABC, 12), "ABC");
    assert_eq!(WordFormat::Hex.format(0x5, 1), "5");
    assert_eq!(WordFormat::Hex.format(0xF, 9), "00F");
    assert_eq!(WordFormat::Binary.format(0, 3), "000");
    assert_eq!(WordFormat::Decimal.format(u64::MAX, 64), "18446744073709551615");
    assert_eq!(WordFormat::Ascii.format(u64::from(b' '), 8), "' '");
    assert_eq!(WordFormat::Ascii.format(0x7F, 8), "7F");
    assert_eq!(WordFormat::Ascii.format(0x1FF, 9), "1FF");
}

#[test]
fn guess_binds_each_candidate_once() {
    // One signal matches both I2C roles' aliases ("scl" and "data"), and
    // it can only fill one of them.
    let candidates = vec![VariableRef::from_hierarchy_string("top.scl_data")];
    let b = RoleBindings::guess(Protocol::I2c, &candidates);
    let bound = b.signals.iter().filter(|s| s.is_some()).count();
    assert_eq!(bound, 1);
    assert_eq!(b.missing(Protocol::I2c).len(), 1);
}

#[test]
fn guess_ignores_case_and_fit_to_resizes() {
    let candidates = vec![VariableRef::from_hierarchy_string("top.UART_TX")];
    let mut b = RoleBindings::guess(Protocol::Uart, &candidates);
    assert_eq!(b.get(0).map(|v| v.name.clone()), Some("UART_TX".to_string()));
    assert_eq!(b.get(5), None);
    b.fit_to(Protocol::Spi);
    assert_eq!(b.signals.len(), 4);
    assert_eq!(b.get(0).map(|v| v.name.clone()), Some("UART_TX".to_string()));
    assert_eq!(b.missing(Protocol::Spi), Vec::<&str>::new());
    b.fit_to(Protocol::Uart);
    assert_eq!(b.signals.len(), 1);
}

#[test]
fn settings_report_their_protocol_and_rows() {
    for p in [Protocol::Spi, Protocol::I2c, Protocol::Uart] {
        let s = DecoderSettings::for_protocol(p);
        assert_eq!(s.protocol(), p);
        let names = s.lane_names();
        let lanes: Vec<Option<BitLane>> = vec![None; p.roles().len()];
        let out = s.decode(&lanes);
        let decoded: Vec<String> = out.iter().map(|l| l.name.clone()).collect();
        assert_eq!(names, decoded);
        assert!(out.iter().all(|l| l.words.is_empty()));
    }
}

#[test]
fn bindings_compare_by_signal() {
    let a = RoleBindings {
        signals: vec![Some(VariableRef::from_hierarchy_string("a.b")), None],
    };
    let b = RoleBindings {
        signals: vec![Some(VariableRef::from_hierarchy_string("a.b")), None],
    };
    let c = RoleBindings {
        signals: vec![Some(VariableRef::from_hierarchy_string("a.c")), None],
    };
    assert!(a.same_as(&b));
    assert!(!a.same_as(&c));
    assert!(cache_key().same_as(&cache_key()));
}
