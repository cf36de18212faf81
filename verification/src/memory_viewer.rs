//! The logic of the memory viewer: how indices are shown and read back, which
//! rows are shown, and where a jump lands.

use vstd::prelude::*;

use crate::text::{
    all_digits, decimal, digit_value, digits_value, lemma_digits_len, lemma_digits_not_white,
    lemma_digits_round_trip, lemma_trim_unchanged, lemma_zero_pad_value, chars_of, contains_chars, contains_seq, digits, int_decimal, int_decimal_len,
    int_decimal_padded, int_decimal_padded_text, pad_zeros, parse_i64, parse_i64_spec,
    render_digits, string_from_chars, trim, trim_chars, twos_complement, twos_complement_of,
    zero_pad,
};

verus! {

#[derive(Debug, Clone, Copy, PartialEq, Eq, Structural)]
pub enum MemoryViewerFormat {
    Decimal,
    Hexadecimal,
    Binary,
}

pub open spec fn label_spec(f: MemoryViewerFormat) -> &'static str {
    match f {
        MemoryViewerFormat::Decimal => "Decimal",
        MemoryViewerFormat::Hexadecimal => "Hexadecimal",
        MemoryViewerFormat::Binary => "Binary",
    }
}

impl MemoryViewerFormat {
    pub fn label(self) -> (r: &'static str)
        ensures
            r == label_spec(self),
    {
        match self {
            Self::Decimal => "Decimal",
            Self::Hexadecimal => "Hexadecimal",
            Self::Binary => "Binary",
        }
    }
}

/// Which rows the viewer shows.
#[derive(Debug, Clone, Copy, PartialEq, Eq, Structural)]
pub enum ChangeModes {
    AllValues,
    ChangedAtCursor,
    ChangedBtwCursorAndMarker(u8),
}

/// Text of `index` in `format`, zero-padded to the width that `max_index`
/// takes in the same format so that a column of indices lines up. Hex and
/// binary show a negative number's two's complement bits.
pub open spec fn format_index_spec(index: i64, format: MemoryViewerFormat, max_index: i64) -> Seq<char> {
    match format {
        MemoryViewerFormat::Decimal => int_decimal_padded(index as int, int_decimal(max_index as int).len()),
        MemoryViewerFormat::Hexadecimal => zero_pad(
            digits(twos_complement(index), 16, false),
            digits(twos_complement(max_index), 16, false).len(),
        ),
        MemoryViewerFormat::Binary => zero_pad(
            digits(twos_complement(index), 2, true),
            digits(twos_complement(max_index), 2, true).len(),
        ),
    }
}

pub fn format_index(index: i64, format: MemoryViewerFormat, max_index: i64) -> (s: String)
    ensures
        s@ == format_index_spec(index, format, max_index),
{
    match format {
        MemoryViewerFormat::Decimal => {
            let width = int_decimal_len(max_index);
            string_from_chars(&int_decimal_padded_text(index, width))
        },
        MemoryViewerFormat::Hexadecimal => {
            let width = render_digits(twos_complement_of(max_index), 16, false).len();
            string_from_chars(&pad_zeros(render_digits(twos_complement_of(index), 16, false), width))
        },
        MemoryViewerFormat::Binary => {
            let width = render_digits(twos_complement_of(max_index), 2, true).len();
            string_from_chars(&pad_zeros(render_digits(twos_complement_of(index), 2, true), width))
        },
    }
}

/// `s` without any leading `[`.
pub open spec fn strip_open_brackets(s: Seq<char>) -> Seq<char>
    decreases s.len(),
{
    if s.len() > 0 && s[0] == '[' {
        strip_open_brackets(s.drop_first())
    } else {
        s
    }
}

/// The part of `s` before its first `]`, all of `s` if there is none.
pub open spec fn before_close_bracket(s: Seq<char>) -> Seq<char>
    decreases s.len(),
{
    if s.len() == 0 {
        s
    } else if s[0] == ']' {
        Seq::empty()
    } else {
        seq![s[0]] + before_close_bracket(s.drop_first())
    }
}

/// The index written in an element name such as `[12]`: the decimal number
/// after any `[` and before the first `]`, white space around the name ignored.
pub open spec fn index_from_name_spec(name: Seq<char>) -> Option<i64> {
    parse_i64_spec(before_close_bracket(strip_open_brackets(trim(name))), 10)
}

pub fn parse_index_from_name(name: &str) -> (r: Option<i64>)
    ensures
        r == index_from_name_spec(name@),
{
    let t = trim_chars(&chars_of(name));
    let mut a: usize = 0;
    assert(t@.skip(0) =~= t@);
    while a < t.len() && t[a] == '['
        invariant
            a <= t@.len(),
            strip_open_brackets(t@) == strip_open_brackets(t@.skip(a as int)),
        decreases t@.len() - a,
    {
        assert(t@.skip(a as int).drop_first() =~= t@.skip(a + 1));
        a = a + 1;
    }
    let ghost stripped = t@.skip(a as int);
    assert(strip_open_brackets(stripped) == stripped);
    let mut b: usize = a;
    while b < t.len() && t[b] != ']'
        invariant
            a <= b <= t@.len(),
            stripped == t@.skip(a as int),
            before_close_bracket(stripped) == t@.subrange(a as int, b as int) + before_close_bracket(t@.skip(b as int)),
        decreases t@.len() - b,
    {
        assert(t@.skip(b as int).drop_first() =~= t@.skip(b + 1));
        assert(t@.subrange(a as int, b as int) + seq![t@[b as int]] =~= t@.subrange(a as int, b + 1));
        b = b + 1;
    }
    proof {
        if b < t@.len() {
            assert(t@.skip(b as int)[0] == ']');
        }
        assert(before_close_bracket(t@.skip(b as int)) =~= Seq::<char>::empty());
    }
    let mut part: Vec<char> = Vec::new();
    let mut i: usize = a;
    while i < b
        invariant
            a <= i <= b <= t@.len(),
            part@ == t@.subrange(a as int, i as int),
        decreases b - i,
    {
        part.push(t[i]);
        i = i + 1;
        assert(part@ =~= t@.subrange(a as int, i as int));
    }
    assert(part@ =~= before_close_bracket(stripped));
    parse_i64(&part, 10)
}

/// The index a jump field asks for: hexadecimal after `0x`, binary after
/// `0b`, decimal otherwise, white space around it ignored.
pub open spec fn jump_index_spec(input: Seq<char>) -> Option<i64> {
    let t = trim(input);
    if t.len() >= 2 && t[0] == '0' && t[1] == 'x' {
        parse_i64_spec(t.skip(2), 16)
    } else if t.len() >= 2 && t[0] == '0' && t[1] == 'b' {
        parse_i64_spec(t.skip(2), 2)
    } else {
        parse_i64_spec(t, 10)
    }
}

fn skip_two(v: &Vec<char>) -> (r: Vec<char>)
    requires
        v@.len() >= 2,
    ensures
        r@ == v@.skip(2),
{
    let mut r: Vec<char> = Vec::new();
    let mut i: usize = 2;
    while i < v.len()
        invariant
            2 <= i <= v@.len(),
            r@ == v@.subrange(2, i as int),
        decreases v@.len() - i,
    {
        r.push(v[i]);
        i = i + 1;
        assert(r@ =~= v@.subrange(2, i as int));
    }
    assert(r@ =~= v@.skip(2));
    r
}

pub fn parse_jump_to_index(input: &str) -> (r: Option<i64>)
    ensures
        r == jump_index_spec(input@),
{
    let t = trim_chars(&chars_of(input));
    if t.len() >= 2 && t[0] == '0' && t[1] == 'x' {
        parse_i64(&skip_two(&t), 16)
    } else if t.len() >= 2 && t[0] == '0' && t[1] == 'b' {
        parse_i64(&skip_two(&t), 2)
    } else {
        parse_i64(&t, 10)
    }
}

/// A nonempty run of digits whose value fits reads as that value, and with
/// a leading `-` as its negation.
proof fn lemma_parse_digits(ds: Seq<char>, radix: nat)
    requires
        2 <= radix <= 16,
        ds.len() > 0,
        all_digits(ds, radix),
    ensures
        digits_value(ds, radix) <= 0x7fff_ffff_ffff_ffff ==> parse_i64_spec(ds, radix) == Some(
            digits_value(ds, radix) as i64,
        ),
        digits_value(ds, radix) <= 0x8000_0000_0000_0000 ==> parse_i64_spec(seq!['-'] + ds, radix) == Some(
            (-digits_value(ds, radix)) as i64,
        ),
{
    assert(0 <= digit_value(ds[0]));
    let neg = seq!['-'] + ds;
    assert(neg.drop_first() =~= ds);
    assert(neg[0] == '-');
    assert(neg.len() >= 2);
    assert(neg != seq!['-']) by {
        assert(neg.len() != seq!['-'].len());
    }
    if ds.len() == 1 {
        assert(ds != seq!['+'] && ds != seq!['-']) by {
            assert(ds[0] != '+' && ds[0] != '-');
        }
    }
}

/// The digits of `n` in `base`, padded to `width`, read back as `n`.
proof fn lemma_padded_digits(n: nat, base: nat, upper: bool, width: nat)
    requires
        2 <= base <= 16,
    ensures
        all_digits(zero_pad(digits(n, base, upper), width), base),
        digits_value(zero_pad(digits(n, base, upper), width), base) == n,
        zero_pad(digits(n, base, upper), width).len() > 0,
{
    lemma_digits_round_trip(n, base, upper);
    lemma_digits_len(n, base, upper);
    lemma_zero_pad_value(digits(n, base, upper), width, base);
}

/// An index shown in decimal reads back, in the jump field, as that index.
pub proof fn law_decimal_index_reads_back(index: i64, max_index: i64)
    ensures
        jump_index_spec(format_index_spec(index, MemoryViewerFormat::Decimal, max_index)) == Some(index),
{
    let w = int_decimal(max_index as int).len();
    let shown = format_index_spec(index, MemoryViewerFormat::Decimal, max_index);
    if index < 0 {
        let m: nat = (-index) as nat;
        let pw: nat = if w >= 1 { (w - 1) as nat } else { 0 };
        let ds = zero_pad(decimal(m), pw);
        lemma_padded_digits(m, 10, true, pw);
        lemma_parse_digits(ds, 10);
        assert(shown == seq!['-'] + ds);
        lemma_digits_not_white(ds, 10, ds.len() - 1);
        assert(shown.last() == ds.last());
        lemma_trim_unchanged(shown);
    } else {
        let ds = zero_pad(decimal(index as nat), w);
        lemma_padded_digits(index as nat, 10, true, w);
        lemma_parse_digits(ds, 10);
        assert(shown == ds);
        lemma_digits_not_white(ds, 10, 0);
        lemma_digits_not_white(ds, 10, ds.len() - 1);
        lemma_trim_unchanged(shown);
        if ds.len() >= 2 {
            assert(0 <= digit_value(ds[1]) < 10);
        }
    }
}

/// Digits after `0x` read back in hexadecimal, after `0b` in binary.
proof fn lemma_prefixed_reads_back(ds: Seq<char>, radix: nat, c: char)
    requires
        (c == 'x' && radix == 16) || (c == 'b' && radix == 2),
        ds.len() > 0,
        all_digits(ds, radix),
        digits_value(ds, radix) <= 0x7fff_ffff_ffff_ffff,
    ensures
        jump_index_spec(seq!['0', c] + ds) == Some(digits_value(ds, radix) as i64),
{
    lemma_parse_digits(ds, radix);
    let t = seq!['0', c] + ds;
    assert(t.skip(2) =~= ds);
    lemma_digits_not_white(ds, radix, ds.len() - 1);
    assert(t.last() == ds.last());
    lemma_trim_unchanged(t);
}

/// A non-negative index shown in hexadecimal reads back, after `0x`, as that
/// index.
pub proof fn law_hex_index_reads_back(index: i64, max_index: i64)
    requires
        index >= 0,
    ensures
        jump_index_spec(seq!['0', 'x'] + format_index_spec(index, MemoryViewerFormat::Hexadecimal, max_index))
            == Some(index),
{
    let w = digits(twos_complement(max_index), 16, false).len();
    let ds = zero_pad(digits(index as nat, 16, false), w);
    assert(format_index_spec(index, MemoryViewerFormat::Hexadecimal, max_index) == ds);
    lemma_padded_digits(index as nat, 16, false, w);
    lemma_prefixed_reads_back(ds, 16, 'x');
}

/// A non-negative index shown in binary reads back, after `0b`, as that index.
pub proof fn law_binary_index_reads_back(index: i64, max_index: i64)
    requires
        index >= 0,
    ensures
        jump_index_spec(seq!['0', 'b'] + format_index_spec(index, MemoryViewerFormat::Binary, max_index))
            == Some(index),
{
    let w = digits(twos_complement(max_index), 2, true).len();
    let ds = zero_pad(digits(index as nat, 2, true), w);
    assert(format_index_spec(index, MemoryViewerFormat::Binary, max_index) == ds);
    lemma_padded_digits(index as nat, 2, true, w);
    lemma_prefixed_reads_back(ds, 2, 'b');
}

/// A smaller number has no more digits.
proof fn lemma_digits_len_mono(n: nat, m: nat, base: nat, upper: bool)
    requires
        2 <= base <= 16,
        n <= m,
    ensures
        digits(n, base, upper).len() <= digits(m, base, upper).len(),
    decreases m,
{
    lemma_digits_len(m, base, upper);
    if n >= base {
        assert(n / base <= m / base && m / base < m) by (nonlinear_arith)
            requires
                2 <= base <= n <= m,
        ;
        lemma_digits_len_mono(n / base, m / base, base, upper);
    }
}

/// The radix an index format writes in.
pub open spec fn format_radix(format: MemoryViewerFormat) -> nat {
    match format {
        MemoryViewerFormat::Decimal => 10,
        MemoryViewerFormat::Hexadecimal => 16,
        MemoryViewerFormat::Binary => 2,
    }
}

/// The width of the largest index in a format, which the column keeps.
pub open spec fn column_width(format: MemoryViewerFormat, max_index: i64) -> nat {
    match format {
        MemoryViewerFormat::Decimal => int_decimal(max_index as int).len(),
        MemoryViewerFormat::Hexadecimal => digits(twos_complement(max_index), 16, false).len(),
        MemoryViewerFormat::Binary => digits(twos_complement(max_index), 2, true).len(),
    }
}

/// Every index from 0 up to the largest is shown exactly as wide as the
/// largest, so the column lines up, and its text reads back in the format's
/// radix as the index.
pub proof fn law_index_column(index: i64, format: MemoryViewerFormat, max_index: i64)
    requires
        0 <= index <= max_index,
    ensures
        format_index_spec(index, format, max_index).len() == column_width(format, max_index),
        parse_i64_spec(format_index_spec(index, format, max_index), format_radix(format)) == Some(index),
{
    let radix = format_radix(format);
    let upper = format == MemoryViewerFormat::Binary || format == MemoryViewerFormat::Decimal;
    let w = column_width(format, max_index);
    assert(twos_complement(index) == index && twos_complement(max_index) == max_index);
    lemma_digits_len_mono(index as nat, max_index as nat, radix, upper);
    let ds = zero_pad(digits(index as nat, radix, upper), w);
    assert(format_index_spec(index, format, max_index) == ds);
    lemma_padded_digits(index as nat, radix, upper, w);
    lemma_parse_digits(ds, radix);
}

/// Text without a `]` is read whole, up to the `]` that follows it.
proof fn lemma_before_close(s: Seq<char>)
    requires
        forall|i: int| 0 <= i < s.len() ==> s[i] != ']',
    ensures
        before_close_bracket(s + seq![']']) == s,
    decreases s.len(),
{
    if s.len() > 0 {
        lemma_before_close(s.drop_first());
        assert((s + seq![']']).drop_first() =~= s.drop_first() + seq![']']);
        assert(seq![s[0]] + s.drop_first() =~= s);
    } else {
        assert((s + seq![']']) =~= seq![']']);
    }
}

/// An element named `[n]` gives back the index `n`.
pub proof fn law_element_name_index(n: i64)
    ensures
        index_from_name_spec(seq!['['] + int_decimal(n as int) + seq![']']) == Some(n),
{
    let body = int_decimal(n as int);
    let name = seq!['['] + body + seq![']'];
    let ds = if n < 0 {
        decimal((-n) as nat)
    } else {
        decimal(n as nat)
    };
    let m: nat = if n < 0 { (-n) as nat } else { n as nat };
    lemma_padded_digits(m, 10, true, 0);
    assert(zero_pad(ds, 0) == ds);
    lemma_parse_digits(ds, 10);
    assert forall|i: int| 0 <= i < body.len() implies body[i] != ']' by {
        if n < 0 {
            if i > 0 {
                assert(body[i] == ds[i - 1]);
                assert(0 <= digit_value(ds[i - 1]));
            }
        } else {
            assert(0 <= digit_value(ds[i]));
        }
    }
    lemma_trim_unchanged(name);
    assert(name.drop_first() =~= body + seq![']']);
    assert(body[0] != '[') by {
        if n >= 0 {
            assert(0 <= digit_value(ds[0]));
        }
    }
    assert(strip_open_brackets(body + seq![']']) == body + seq![']']);
    lemma_before_close(body);
}

/// The index of a memory element: the one the variable carries, else the one
/// written in its name.
pub fn row_index(index: Option<i64>, name: &str) -> (r: Option<i64>)
    ensures
        r == (match index {
            Some(i) => Some(i),
            None => index_from_name_spec(name@),
        }),
{
    match index {
        Some(i) => Some(i),
        None => parse_index_from_name(name),
    }
}

/// A value changed between the cursor and a marker when its next change after
/// the earlier of the two falls strictly between them.
pub fn changed_between(next: Option<u64>, cursor: u64, marker: u64) -> (r: bool)
    ensures
        r == (next matches Some(n) && (if cursor <= marker {
            cursor < n < marker
        } else {
            marker < n < cursor
        })),
{
    let (start, end) = if cursor <= marker {
        (cursor, marker)
    } else {
        (marker, cursor)
    };
    match next {
        Some(n) => n > start && n < end,
        None => false,
    }
}

/// Distance between two indices.
pub open spec fn distance(a: i64, b: i64) -> int {
    if a >= b {
        a - b
    } else {
        b - a
    }
}

/// Every index is within `i64` distance of the target, so that measuring the
/// distance does not overflow.
pub open spec fn distances_fit(indices: Seq<i64>, target: i64) -> bool {
    forall|i: int| 0 <= i < indices.len() ==> -0x7fff_ffff_ffff_ffff <= #[trigger] indices[i] - target <= 0x7fff_ffff_ffff_ffff
}

/// The position of the index nearest `target`, the first of several equally
/// near; none for no indices.
pub open spec fn closest_spec(indices: Seq<i64>, target: i64, k: Option<usize>) -> bool {
    match k {
        None => indices.len() == 0,
        Some(k) => {
            &&& k < indices.len()
            &&& forall|i: int| 0 <= i < indices.len() ==> distance(indices[k as int], target) <= distance(#[trigger] indices[i], target)
            &&& forall|i: int| 0 <= i < k ==> distance(indices[k as int], target) < distance(#[trigger] indices[i], target)
        },
    }
}

/// `|a - b|`, for a difference that fits in `i64`.
fn abs_diff(a: i64, b: i64) -> (d: i64)
    requires
        -0x7fff_ffff_ffff_ffff <= a - b <= 0x7fff_ffff_ffff_ffff,
    ensures
        d == distance(a, b),
{
    let x = a - b;
    if x < 0 {
        -x
    } else {
        x
    }
}

pub fn closest_row_index(indices: &[i64], target: i64) -> (r: Option<usize>)
    requires
        distances_fit(indices@, target),
    ensures
        closest_spec(indices@, target, r),
{
    if indices.len() == 0 {
        return None;
    }
    let mut best: usize = 0;
    let mut best_d: i64 = abs_diff(indices[0], target);
    let mut i: usize = 1;
    while i < indices.len()
        invariant
            distances_fit(indices@, target),
            1 <= i <= indices@.len(),
            best < i,
            best_d == distance(indices@[best as int], target),
            forall|k: int| 0 <= k < i ==> best_d <= distance(#[trigger] indices@[k], target),
            forall|k: int| 0 <= k < best ==> best_d < distance(#[trigger] indices@[k], target),
        decreases indices@.len() - i,
    {
        let d = abs_diff(indices[i], target);
        if d < best_d {
            best = i;
            best_d = d;
        }
        i = i + 1;
    }
    Some(best)
}

/// A row of the memory viewer: its index, its rendered value, and whether it
/// changed at the cursor or between the cursor and the chosen marker.
pub struct MemoryRow {
    pub index: i64,
    pub value: String,
    pub changed_values: bool,
    pub change_b_selected_times: bool,
}

/// One element of a memory as the waveform reports it at the cursor: the
/// index the variable carries, its name, its rendered value, the time of its
/// last change, and its next change after the earlier of cursor and marker.
pub struct ElementSample {
    pub index: Option<i64>,
    pub name: String,
    pub value: String,
    pub change_time: u64,
    pub next_change: Option<u64>,
}

/// The contents of an element sample.
pub struct ElementView {
    pub index: Option<i64>,
    pub name: Seq<char>,
    pub value: Seq<char>,
    pub change_time: u64,
    pub next_change: Option<u64>,
}

impl View for ElementSample {
    type V = ElementView;

    open spec fn view(&self) -> ElementView {
        ElementView {
            index: self.index,
            name: self.name@,
            value: self.value@,
            change_time: self.change_time,
            next_change: self.next_change,
        }
    }
}

/// The contents of a row.
pub struct MemoryRowView {
    pub index: i64,
    pub value: Seq<char>,
    pub changed_values: bool,
    pub change_b_selected_times: bool,
}

impl View for MemoryRow {
    type V = MemoryRowView;

    open spec fn view(&self) -> MemoryRowView {
        MemoryRowView {
            index: self.index,
            value: self.value@,
            changed_values: self.changed_values,
            change_b_selected_times: self.change_b_selected_times,
        }
    }
}

/// Elements are ordered by the index they carry, those without one last.
pub open spec fn element_key(e: ElementView) -> i64 {
    match e.index {
        Some(i) => i,
        None => i64::MAX,
    }
}

/// Position `p` inserted after every position whose element's key is not
/// greater.
pub open spec fn insert_by_key(es: Seq<ElementView>, ps: Seq<int>, p: int) -> Seq<int>
    decreases ps.len(),
{
    if ps.len() == 0 {
        seq![p]
    } else if element_key(es[ps.last()]) <= element_key(es[p]) {
        ps.push(p)
    } else {
        insert_by_key(es, ps.drop_last(), p).push(ps.last())
    }
}

/// The positions of the first `n` elements ordered by key, elements with
/// equal keys kept in their order.
pub open spec fn key_order(es: Seq<ElementView>, n: nat) -> Seq<int>
    decreases n,
{
    if n == 0 {
        Seq::empty()
    } else {
        insert_by_key(es, key_order(es, (n - 1) as nat), n - 1)
    }
}

/// The row of an element, none when neither it nor its name gives an index.
/// It changed at the cursor when its last change is there, and between the
/// cursor and the marker when there is a marker and its next change falls
/// strictly between the two.
pub open spec fn row_of(e: ElementView, cursor: u64, marker: Option<u64>) -> Option<MemoryRowView> {
    let index = match e.index {
        Some(i) => Some(i),
        None => index_from_name_spec(e.name),
    };
    match index {
        None => None,
        Some(i) => Some(
            MemoryRowView {
                index: i,
                value: e.value,
                changed_values: e.change_time == cursor,
                change_b_selected_times: marker matches Some(m) && (e.next_change matches Some(n) && (if cursor
                    <= m {
                    cursor < n < m
                } else {
                    m < n < cursor
                })),
            },
        ),
    }
}

/// The rows of the elements at positions `order`, in that order.
pub open spec fn rows_in(es: Seq<ElementView>, order: Seq<int>, cursor: u64, marker: Option<u64>) -> Seq<
    MemoryRowView,
>
    decreases order.len(),
{
    if order.len() == 0 {
        Seq::empty()
    } else {
        let rest = rows_in(es, order.drop_last(), cursor, marker);
        match row_of(es[order.last()], cursor, marker) {
            Some(r) => rest.push(r),
            None => rest,
        }
    }
}

/// The viewer's rows: elements ordered by the index they carry, then each
/// that has an index made a row.
pub open spec fn rows_spec(es: Seq<ElementView>, cursor: u64, marker: Option<u64>) -> Seq<MemoryRowView> {
    rows_in(es, key_order(es, es.len()), cursor, marker)
}

proof fn lemma_insert_by_key_at(es: Seq<ElementView>, ps: Seq<int>, p: int, k: int)
    requires
        0 <= k <= ps.len(),
        forall|m: int| k <= m < ps.len() ==> element_key(es[#[trigger] ps[m]]) > element_key(es[p]),
        k == 0 || element_key(es[ps[k - 1]]) <= element_key(es[p]),
    ensures
        insert_by_key(es, ps, p) == ps.take(k).push(p) + ps.skip(k),
    decreases ps.len(),
{
    if ps.len() == 0 {
        assert(ps.take(k).push(p) + ps.skip(k) =~= seq![p]);
    } else if element_key(es[ps.last()]) <= element_key(es[p]) {
        assert(k == ps.len());
        assert(ps.take(k).push(p) + ps.skip(k) =~= ps.push(p));
    } else {
        let d = ps.drop_last();
        assert forall|m: int| k <= m < d.len() implies element_key(es[#[trigger] d[m]]) > element_key(es[p]) by {
            assert(d[m] == ps[m]);
        }
        lemma_insert_by_key_at(es, d, p, k);
        assert(d.take(k).push(p) + d.skip(k) + seq![ps.last()] =~= ps.take(k).push(p) + ps.skip(k));
    }
}

/// Key order only ever holds positions below `n`.
proof fn lemma_key_order_in_range(es: Seq<ElementView>, n: nat)
    ensures
        key_order(es, n).len() == n,
        forall|m: int| 0 <= m < key_order(es, n).len() ==> 0 <= #[trigger] key_order(es, n)[m] < n,
    decreases n,
{
    if n > 0 {
        lemma_key_order_in_range(es, (n - 1) as nat);
        lemma_insert_by_key_range(es, key_order(es, (n - 1) as nat), n - 1, n as int);
    }
}

proof fn lemma_insert_by_key_range(es: Seq<ElementView>, ps: Seq<int>, p: int, n: int)
    requires
        0 <= p < n,
        forall|m: int| 0 <= m < ps.len() ==> 0 <= #[trigger] ps[m] < n,
    ensures
        insert_by_key(es, ps, p).len() == ps.len() + 1,
        forall|m: int| 0 <= m < insert_by_key(es, ps, p).len() ==> 0 <= #[trigger] insert_by_key(es, ps, p)[m] < n,
    decreases ps.len(),
{
    if ps.len() > 0 && element_key(es[ps.last()]) > element_key(es[p]) {
        let d = ps.drop_last();
        assert forall|m: int| 0 <= m < d.len() implies 0 <= #[trigger] d[m] < n by {
            assert(d[m] == ps[m]);
        }
        lemma_insert_by_key_range(es, d, p, n);
        let r = insert_by_key(es, ps, p);
        assert forall|m: int| 0 <= m < r.len() implies 0 <= #[trigger] r[m] < n by {
            if m < r.len() - 1 {
                assert(r[m] == insert_by_key(es, d, p)[m]);
            }
        }
    } else {
        let r = insert_by_key(es, ps, p);
        assert forall|m: int| 0 <= m < r.len() implies 0 <= #[trigger] r[m] < n by {
            if ps.len() > 0 && m < ps.len() {
                assert(r[m] == ps[m]);
            }
        }
    }
}

pub open spec fn elements_view(es: Seq<ElementSample>) -> Seq<ElementView> {
    es.map_values(|e: ElementSample| e@)
}

pub open spec fn rows_view(rs: Seq<MemoryRow>) -> Seq<MemoryRowView> {
    rs.map_values(|r: MemoryRow| r@)
}

fn key_of(e: &ElementSample) -> (r: i64)
    ensures
        r == element_key(e@),
{
    match e.index {
        Some(x) => x,
        None => i64::MAX,
    }
}

/// The positions of the elements ordered by the index they carry, stably.
fn order_by_index(elements: &[ElementSample]) -> (out: Vec<usize>)
    ensures
        out@.map_values(|p: usize| p as int) == key_order(elements_view(elements@), elements@.len()),
        forall|m: int| 0 <= m < out@.len() ==> #[trigger] out@[m] < elements@.len(),
{
    let ghost es = elements_view(elements@);
    let mut out: Vec<usize> = Vec::new();
    let mut i: usize = 0;
    assert(out@.map_values(|p: usize| p as int) =~= Seq::<int>::empty());
    while i < elements.len()
        invariant
            es == elements_view(elements@),
            i <= elements@.len(),
            out@.map_values(|p: usize| p as int) == key_order(es, i as nat),
            forall|m: int| 0 <= m < out@.len() ==> #[trigger] out@[m] < i,
        decreases elements@.len() - i,
    {
        let ghost ov = out@.map_values(|p: usize| p as int);
        let key = key_of(&elements[i]);
        assert(key == element_key(es[i as int]));
        let mut k = out.len();
        while k > 0 && key_of(&elements[out[k - 1]]) > key
            invariant
                k <= out@.len(),
                es == elements_view(elements@),
                ov == out@.map_values(|p: usize| p as int),
                forall|m: int| 0 <= m < out@.len() ==> #[trigger] out@[m] < i,
                i < elements@.len(),
                key == element_key(es[i as int]),
                forall|m: int| k <= m < ov.len() ==> element_key(es[#[trigger] ov[m]]) > key,
            decreases k,
        {
            assert(ov[k - 1] == out@[k - 1] as int);
            k = k - 1;
        }
        proof {
            if k > 0 {
                assert(ov[k - 1] == out@[k - 1] as int);
            }
            lemma_insert_by_key_at(es, ov, i as int, k as int);
        }
        let ghost before = out@;
        out.insert(k, i);
        proof {
            assert(out@.map_values(|p: usize| p as int) =~= ov.take(k as int).push(i as int) + ov.skip(k as int));
            assert forall|m: int| 0 <= m < out@.len() implies #[trigger] out@[m] < i + 1 by {
                if m < k {
                    assert(out@[m] == before[m]);
                } else if m > k {
                    assert(out@[m] == before[m - 1]);
                }
            }
        }
        i = i + 1;
    }
    out
}

/// The viewer's rows for the elements at the cursor, with an optional marker:
/// ordered by the index each element carries, those without one last, and
/// each element that has an index, or one in its name, made a row.
pub fn build_rows(elements: &[ElementSample], cursor: u64, marker: Option<u64>) -> (rows: Vec<MemoryRow>)
    ensures
        rows_view(rows@) == rows_spec(elements_view(elements@), cursor, marker),
{
    let ghost es = elements_view(elements@);
    let order = order_by_index(elements);
    let ghost ov = order@.map_values(|p: usize| p as int);
    let mut rows: Vec<MemoryRow> = Vec::new();
    let mut j: usize = 0;
    assert(ov.take(0) =~= Seq::<int>::empty());
    assert(rows_view(rows@) =~= Seq::<MemoryRowView>::empty());
    while j < order.len()
        invariant
            es == elements_view(elements@),
            ov == order@.map_values(|p: usize| p as int),
            forall|m: int| 0 <= m < order@.len() ==> #[trigger] order@[m] < elements@.len(),
            j <= order@.len(),
            rows_view(rows@) == rows_in(es, ov.take(j as int), cursor, marker),
        decreases order@.len() - j,
    {
        let e = &elements[order[j]];
        proof {
            assert(ov.take(j + 1).drop_last() =~= ov.take(j as int));
            assert(ov.take(j + 1).last() == order@[j as int] as int);
            assert(es[order@[j as int] as int] == e@);
        }
        match row_index(e.index, e.name.as_str()) {
            Some(index) => {
                let changed_b = match marker {
                    Some(m) => changed_between(e.next_change, cursor, m),
                    None => false,
                };
                let row = MemoryRow {
                    index,
                    value: e.value.clone(),
                    changed_values: e.change_time == cursor,
                    change_b_selected_times: changed_b,
                };
                let ghost before = rows@;
                rows.push(row);
                proof {
                    assert(rows_view(rows@) =~= rows_view(before).push(row@));
                }
            },
            None => {},
        }
        j = j + 1;
    }
    proof {
        assert(ov.take(order@.len() as int) =~= ov);
        lemma_key_order_in_range(es, es.len());
    }
    rows
}

/// Lower-cased text, as `str::to_lowercase` computes it.
pub uninterp spec fn lowercase(s: Seq<char>) -> Seq<char>;

/// `str::to_lowercase`: the full Unicode lower-case mapping of `s`. Its result
/// is a function of `s` alone, named `lowercase`.
#[verifier::external_body]
fn to_lowercase(s: &str) -> (r: String)
    ensures
        r@ == lowercase(s@),
{
    s.to_lowercase()
}

/// A row is shown when the mode admits it and, if a filter is set, its
/// lower-cased value contains the lower-cased filter.
pub open spec fn row_shown(
    changed_values: bool,
    change_b_selected_times: bool,
    value: Seq<char>,
    mode: ChangeModes,
    search: Seq<char>,
) -> bool {
    let mode_ok = match mode {
        ChangeModes::AllValues => true,
        ChangeModes::ChangedAtCursor => changed_values,
        ChangeModes::ChangedBtwCursorAndMarker(_) => change_b_selected_times,
    };
    mode_ok && (search.len() == 0 || contains_seq(lowercase(value), search))
}

/// The filter as it is matched: trimmed, then lower-cased.
pub open spec fn search_key(search_value: Seq<char>) -> Seq<char> {
    lowercase(trim(search_value))
}

/// Positions of the rows shown, in order.
pub open spec fn visible_spec(rows: Seq<MemoryRow>, mode: ChangeModes, search: Seq<char>) -> Seq<usize>
    decreases rows.len(),
{
    if rows.len() == 0 {
        Seq::empty()
    } else {
        let rest = visible_spec(rows.drop_last(), mode, search);
        let r = rows.last();
        if row_shown(r.changed_values, r.change_b_selected_times, r.value@, mode, search) {
            rest.push((rows.len() - 1) as usize)
        } else {
            rest
        }
    }
}

/// Every position in the shown list names a row.
proof fn lemma_visible_in_range(rows: Seq<MemoryRow>, mode: ChangeModes, search: Seq<char>)
    requires
        rows.len() <= usize::MAX,
    ensures
        forall|m: int|
            0 <= m < visible_spec(rows, mode, search).len() ==> #[trigger] visible_spec(rows, mode, search)[m]
                < rows.len(),
    decreases rows.len(),
{
    if rows.len() > 0 {
        let d = rows.drop_last();
        lemma_visible_in_range(d, mode, search);
        let vs = visible_spec(rows, mode, search);
        let rest = visible_spec(d, mode, search);
        assert forall|m: int| 0 <= m < vs.len() implies #[trigger] vs[m] < rows.len() by {
            if m < rest.len() {
                assert(vs[m] == rest[m]);
            }
        }
    }
}

/// The rows shown: a row appears exactly when the change mode admits it (all
/// values; changed at the cursor; changed between cursor and marker) and,
/// for a non-empty filter, its lower-cased value contains the filter
/// somewhere, not only at its start.
pub proof fn law_visible_rows_filter(rows: Seq<MemoryRow>, mode: ChangeModes, search: Seq<char>, k: int)
    requires
        rows.len() <= usize::MAX,
        0 <= k < rows.len(),
    ensures
        visible_spec(rows, mode, search).contains(k as usize) <==> {
            let r = rows[k];
            let v = lowercase(r.value@);
            &&& match mode {
                ChangeModes::AllValues => true,
                ChangeModes::ChangedAtCursor => r.changed_values,
                ChangeModes::ChangedBtwCursorAndMarker(_) => r.change_b_selected_times,
            }
            &&& (search.len() == 0 || exists|i: int|
                0 <= i && i + search.len() <= v.len() && #[trigger] v.subrange(i, i + search.len()) == search)
        },
    decreases rows.len(),
{
    let d = rows.drop_last();
    let n = rows.len();
    let vs = visible_spec(rows, mode, search);
    let rest = visible_spec(d, mode, search);
    lemma_visible_in_range(d, mode, search);
    if k < n - 1 {
        law_visible_rows_filter(d, mode, search, k);
        assert(d[k] == rows[k]);
        if vs.contains(k as usize) {
            let m = choose|m: int| 0 <= m < vs.len() && vs[m] == k as usize;
            if m < rest.len() {
                assert(rest[m] == vs[m]);
            }
        }
        if rest.contains(k as usize) {
            let m = choose|m: int| 0 <= m < rest.len() && rest[m] == k as usize;
            assert(vs[m] == rest[m]);
        }
    } else {
        if vs.contains(k as usize) {
            let m = choose|m: int| 0 <= m < vs.len() && vs[m] == k as usize;
            if m < rest.len() {
                assert(rest[m] == vs[m]);
            }
        } else {
            if row_shown(rows[k].changed_values, rows[k].change_b_selected_times, rows[k].value@, mode, search) {
                assert(vs[rest.len() as int] == k as usize);
            }
        }
    }
}

/// The rows the viewer shows for `mode` and the filter text `search_value`.
pub fn visible_rows(rows: &[MemoryRow], mode: ChangeModes, search_value: &str) -> (r: Vec<usize>)
    ensures
        r@ == visible_spec(rows@, mode, search_key(search_value@)),
{
    let trimmed = string_from_chars(&trim_chars(&chars_of(search_value)));
    let search = chars_of(to_lowercase(trimmed.as_str()).as_str());
    let ghost key = search_key(search_value@);
    assert(search@ == key);
    let mut out: Vec<usize> = Vec::new();
    let mut i: usize = 0;
    assert(rows@.take(0) =~= Seq::<MemoryRow>::empty());
    while i < rows.len()
        invariant
            i <= rows@.len(),
            search@ == key,
            out@ == visible_spec(rows@.take(i as int), mode, key),
        decreases rows@.len() - i,
    {
        let row = &rows[i];
        let mode_ok = match mode {
            ChangeModes::AllValues => true,
            ChangeModes::ChangedAtCursor => row.changed_values,
            ChangeModes::ChangedBtwCursorAndMarker(_) => row.change_b_selected_times,
        };
        let shown = if !mode_ok {
            false
        } else if search.len() == 0 {
            true
        } else {
            let value = chars_of(to_lowercase(row.value.as_str()).as_str());
            contains_chars(&value, &search)
        };
        proof {
            assert(rows@.take(i + 1).drop_last() =~= rows@.take(i as int));
            assert(rows@.take(i + 1).last() == rows@[i as int]);
        }
        if shown {
            out.push(i);
        }
        i = i + 1;
    }
    assert(rows@.take(rows@.len() as int) =~= rows@);
    out
}

/// The largest index among the rows, 0 for no rows.
pub open spec fn max_index_spec(rows: Seq<MemoryRow>) -> i64
    decreases rows.len(),
{
    if rows.len() == 0 {
        0
    } else if rows.len() == 1 {
        rows[0].index
    } else {
        let m = max_index_spec(rows.drop_last());
        if rows.last().index >= m {
            rows.last().index
        } else {
            m
        }
    }
}

pub fn max_row_index(rows: &[MemoryRow]) -> (m: i64)
    ensures
        m == max_index_spec(rows@),
{
    if rows.len() == 0 {
        return 0;
    }
    let mut m = rows[0].index;
    let mut i: usize = 1;
    assert(rows@.take(1).len() == 1);
    while i < rows.len()
        invariant
            1 <= i <= rows@.len(),
            m == max_index_spec(rows@.take(i as int)),
        decreases rows@.len() - i,
    {
        proof {
            assert(rows@.take(i + 1).drop_last() =~= rows@.take(i as int));
        }
        if rows[i].index >= m {
            m = rows[i].index;
        }
        i = i + 1;
    }
    assert(rows@.take(rows@.len() as int) =~= rows@);
    m
}

} // verus!
