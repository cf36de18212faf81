use libsurfer::decoders::dialog::{
    bit_period_for, candidate_signals, configuration_changed, missing_roles_text, role_label,
    spi_mode_label,
};
use libsurfer::decoders::{DecoderSettings, Protocol, RoleBindings};
use libsurfer::memory_viewer::{
    build_rows, changed_between, row_index, ElementSample,
    closest_row_index, format_index, max_row_index, parse_index_from_name, parse_jump_to_index,
    visible_rows, ChangeModes, MemoryRow, MemoryViewerFormat,
};
use libsurfer::translation::{
    render_instruction, unknown_instruction_text, word_from_binary, word_from_digits,
    InstructionKind,
};
use libsurfer::translator_names::order_translator_names;
use libsurfer::wave_container::VariableRef;

fn row(index: i64, value: &str, changed: bool, between: bool) -> MemoryRow {
    MemoryRow {
        index,
        value: value.to_string(),
        changed_values: changed,
        change_b_selected_times: between,
    }
}

#[test]
fn format_index_pads_to_the_widest_index() {
    assert_eq!(format_index(7, MemoryViewerFormat::Decimal, 1000), "0007");
    assert_eq!(format_index(-7, MemoryViewerFormat::Decimal, 1000), "-007");
    assert_eq!(format_index(10, MemoryViewerFormat::Hexadecimal, 255), "0a");
    assert_eq!(format_index(5, MemoryViewerFormat::Binary, 8), "0101");
    assert_eq!(format_index(300, MemoryViewerFormat::Decimal, 9), "300");
    assert_eq!(
        format_index(-1, MemoryViewerFormat::Hexadecimal, 0),
        "ffffffffffffffff"
    );
}

#[test]
fn jump_field_reads_decimal_hex_and_binary() {
    assert_eq!(parse_jump_to_index("  42 "), Some(42));
    assert_eq!(parse_jump_to_index("-3"), Some(-3));
    assert_eq!(parse_jump_to_index("0x1F"), Some(31));
    assert_eq!(parse_jump_to_index("0b101"), Some(5));
    assert_eq!(parse_jump_to_index("0x"), None);
    assert_eq!(parse_jump_to_index("abc"), None);
    assert_eq!(parse_jump_to_index(""), None);
    assert_eq!(parse_jump_to_index("9223372036854775808"), None);
    assert_eq!(parse_jump_to_index("-9223372036854775808"), Some(i64::MIN));
}

#[test]
fn shown_indices_read_back_in_the_jump_field() {
    for &i in &[0i64, 7, 255, 1000, -5, i64::MAX, i64::MIN] {
        let shown = format_index(i, MemoryViewerFormat::Decimal, 100_000);
        assert_eq!(parse_jump_to_index(&shown), Some(i));
    }
    for &i in &[0i64, 10, 4096, i64::MAX] {
        let hex = format!("0x{}", format_index(i, MemoryViewerFormat::Hexadecimal, 65535));
        assert_eq!(parse_jump_to_index(&hex), Some(i));
        let bin = format!("0b{}", format_index(i, MemoryViewerFormat::Binary, 65535));
        assert_eq!(parse_jump_to_index(&bin), Some(i));
    }
}

#[test]
fn element_names_give_their_index() {
    assert_eq!(parse_index_from_name("[12]"), Some(12));
    assert_eq!(parse_index_from_name(" [[-4]] "), Some(-4));
    assert_eq!(parse_index_from_name("7"), Some(7));
    assert_eq!(parse_index_from_name("[x]"), None);
    assert_eq!(parse_index_from_name("[]"), None);
}

#[test]
fn closest_row_takes_the_first_of_equally_near_rows() {
    assert_eq!(closest_row_index(&[0, 10, 20], 14), Some(1));
    assert_eq!(closest_row_index(&[0, 10, 20], 15), Some(1));
    assert_eq!(closest_row_index(&[30, 10, 20], 25), Some(0));
    assert_eq!(closest_row_index(&[], 3), None);
}

#[test]
fn visible_rows_filter_by_mode_and_text() {
    let rows = vec![
        row(0, "Alpha", true, false),
        row(1, "beta", false, true),
        row(2, "ALPHABET", false, false),
    ];
    assert_eq!(visible_rows(&rows, ChangeModes::AllValues, ""), vec![0, 1, 2]);
    assert_eq!(visible_rows(&rows, ChangeModes::AllValues, " alpha "), vec![0, 2]);
    assert_eq!(visible_rows(&rows, ChangeModes::ChangedAtCursor, ""), vec![0]);
    assert_eq!(
        visible_rows(&rows, ChangeModes::ChangedBtwCursorAndMarker(1), "BET"),
        vec![1]
    );
    assert_eq!(max_row_index(&rows), 2);
    assert_eq!(MemoryViewerFormat::Hexadecimal.label(), "Hexadecimal");
}

#[test]
fn unknown_instructions_show_their_word_in_hex() {
    assert_eq!(unknown_instruction_text(0x809f, 32), "UNKNOWN INSN (0x0000809f)");
    assert_eq!(unknown_instruction_text(0x1, 5), "UNKNOWN INSN (0x01)");
    let (text, kind) = render_instruction(None, 0x488888ff, 32);
    assert_eq!(text, "UNKNOWN INSN (0x488888ff)");
    assert_eq!(kind, InstructionKind::Warn);
    let (text, kind) = render_instruction(Some("c.nop".to_string()), 1, 32);
    assert_eq!(text, "c.nop");
    assert_eq!(kind, InstructionKind::Normal);
}

#[test]
fn instruction_words_come_from_digits_or_binary_text() {
    assert_eq!(word_from_digits(&[]), 0);
    assert_eq!(word_from_digits(&[5, 0x809f]), 0x809f);
    assert_eq!(word_from_binary("01001000100010001000100011111111"), 0x488888ff);
    assert_eq!(word_from_binary("01xzz-hlw0010001000100010001000"), 0);
    assert_eq!(word_from_binary(""), 0);
}

#[test]
fn translator_names_sort_numerically_within_each_group() {
    let names: Vec<String> = ["RV64", "RV32", "Mips", "RV128", "LA64"]
        .iter()
        .map(|s| s.to_string())
        .collect();
    let preferred = vec![true, true, false, true, false];
    let (good, bad) = order_translator_names(&names, &preferred);
    assert_eq!(good, vec!["RV32", "RV64", "RV128"]);
    assert_eq!(bad, vec!["LA64", "Mips"]);
}

#[test]
fn variable_refs_round_trip_through_their_full_path() {
    let v = VariableRef::from_hierarchy_string("tb.spi.sclk");
    assert_eq!(v.path, vec!["tb".to_string(), "spi".to_string()]);
    assert_eq!(v.name, "sclk");
    assert_eq!(v.full_path_string(), "tb.spi.sclk");
    let top = VariableRef::from_hierarchy_string("clk");
    assert!(top.path.is_empty());
    assert_eq!(top.full_path_string(), "clk");
    assert!(v.same_as(&VariableRef::new(vec!["tb".to_string(), "spi".to_string()], "sclk".to_string())));
    assert!(!v.same_as(&top));
}

#[test]
fn dialog_texts_and_candidates() {
    let roles = Protocol::Spi.roles();
    assert_eq!(role_label(&roles[0]), "SCLK *");
    assert_eq!(role_label(&roles[1]), "MOSI");
    assert_eq!(missing_roles_text(&["SCL", "SDA"]), "Not decoding: SCL, SDA unset");
    assert_eq!(missing_roles_text(&["Line"]), "Not decoding: Line unset");
    assert_eq!(spi_mode_label(2), "2 (CPOL=1, CPHA=0)");
    assert_eq!(spi_mode_label(1), "1 (CPOL=0, CPHA=1)");
    assert_eq!(bit_period_for(true), None);
    assert_eq!(bit_period_for(false), Some(1000));

    let a = VariableRef::from_hierarchy_string("a.x");
    let b = VariableRef::from_hierarchy_string("a.y");
    let items = vec![Some(a.clone()), Some(a.clone()), None, Some(b.clone()), Some(a.clone())];
    let c = candidate_signals(&items);
    let names: Vec<String> = c.iter().map(|v| v.name.clone()).collect();
    assert_eq!(names, vec!["x", "y"]);

    let s = DecoderSettings::for_protocol(Protocol::Spi);
    let bind = RoleBindings {
        signals: vec![None; 4],
    };
    assert!(!configuration_changed(&s, &bind, &s, &bind));
    let other = DecoderSettings::for_protocol(Protocol::Uart);
    assert!(configuration_changed(&other, &bind, &s, &bind));
}

#[test]
fn memory_rows_take_their_index_and_change_flags() {
    assert_eq!(row_index(Some(3), "[9]"), Some(3));
    assert_eq!(row_index(None, "[9]"), Some(9));
    assert_eq!(row_index(None, "data"), None);
    assert!(changed_between(Some(15), 10, 20));
    assert!(changed_between(Some(15), 20, 10));
    assert!(!changed_between(Some(20), 10, 20));
    assert!(!changed_between(Some(10), 10, 20));
    assert!(!changed_between(None, 10, 20));
}

#[test]
fn candidates_are_listed_once_in_first_appearance_order() {
    let a = VariableRef::from_hierarchy_string("t.a");
    let b = VariableRef::from_hierarchy_string("t.b");
    let items = vec![Some(a.clone()), Some(b.clone()), Some(a.clone()), None, Some(b)];
    let names: Vec<String> = candidate_signals(&items).iter().map(|v| v.name.clone()).collect();
    assert_eq!(names, vec!["a", "b"]);
}

fn sample(index: Option<i64>, name: &str, change_time: u64, next: Option<u64>) -> ElementSample {
    ElementSample {
        index,
        name: name.to_string(),
        value: format!("v{name}"),
        change_time,
        next_change: next,
    }
}

#[test]
fn memory_rows_are_ordered_by_index_and_flag_changes() {
    let elements = vec![
        sample(Some(2), "[2]", 10, Some(15)),
        sample(None, "[7]", 5, None),
        sample(Some(0), "[0]", 3, Some(30)),
        sample(None, "data", 10, Some(12)),
        sample(Some(2), "dup", 4, None),
    ];
    let rows = build_rows(&elements, 10, Some(20));
    let summary: Vec<(i64, String, bool, bool)> = rows
        .iter()
        .map(|r| (r.index, r.value.clone(), r.changed_values, r.change_b_selected_times))
        .collect();
    // Sorted by the carried index (none sorts last, ties keep their order);
    // the element without any index is dropped; "[7]" gets its index from
    // its name but still sorts last.
    assert_eq!(
        summary,
        vec![
            (0, "v[0]".to_string(), false, false),
            (2, "v[2]".to_string(), true, true),
            (2, "vdup".to_string(), false, false),
            (7, "v[7]".to_string(), false, false),
        ]
    );
    let no_marker = build_rows(&elements, 10, None);
    assert!(no_marker.iter().all(|r| !r.change_b_selected_times));
}
