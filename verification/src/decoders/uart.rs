//! Asynchronous serial (UART) decoder.
//!
//! Decodes one line. A full-duplex link is two decoders, which is also how
//! logic analysers model it: TX and RX have independent framing and can even
//! run at different rates.

use vstd::prelude::*;

use vstd::arithmetic::power2::{lemma_pow2_pos, pow2};

use super::spi::{lane_of, sample_valid};
use super::{
    edges_to_spec, format_spec, lemma_word_value_bound, push_bit, time_sorted, value_at_spec,
    word_value, words_view, Bit, BitLane, BitOrder, DecodedLane, DecodedWord, WordFormat, WordKind,
    WordSpec,
};

verus! {

broadcast use vstd::string::to_string_from_display_ensures_for_str;

/// Role indices. Positional in saved state, so only ever append.
pub const LINE: usize = 0;

#[derive(Debug, Clone, Copy, PartialEq, Eq, Structural)]
pub enum Parity {
    Off,
    Even,
    Odd,
}

impl Default for Parity {
    fn default() -> (r: Self)
        ensures
            r == Parity::Off,
    {
        Parity::Off
    }
}

#[derive(Debug, Clone, Copy, PartialEq, Eq, Structural)]
pub struct UartSettings {
    /// Length of one bit in timescale ticks. `None` measures it from the
    /// narrowest pulse on the line.
    pub bit_period: Option<u64>,
    /// Bits per frame, excluding start, parity and stop. 5..=9.
    pub data_bits: u32,
    pub parity: Parity,
    /// Stop bits to require before the next frame. 1 or 2.
    pub stop_bits: u32,
    pub bit_order: BitOrder,
    /// Level the line rests at between frames. Idle high is conventional;
    /// idle low covers an inverted line without needing a separate setting.
    pub idle_high: bool,
    pub format: WordFormat,
}

impl Default for UartSettings {
    /// 8N1, LSB first, idle high, rate measured from the trace.
    fn default() -> (r: Self)
        ensures
            r == default_uart(),
    {
        Self {
            bit_period: None,
            data_bits: 8,
            parity: Parity::Off,
            stop_bits: 1,
            bit_order: BitOrder::LsbFirst,
            idle_high: true,
            format: WordFormat::Ascii,
        }
    }
}

/// The level the line rests at, which is a logical 1 (mark).
pub open spec fn idle_spec(s: UartSettings) -> Bit {
    if s.idle_high {
        Bit::One
    } else {
        Bit::Zero
    }
}

/// The level of a start bit: the opposite of idle.
pub open spec fn start_spec(s: UartSettings) -> Bit {
    if s.idle_high {
        Bit::Zero
    } else {
        Bit::One
    }
}

/// `a - b`, or 0 when `b` is later.
pub open spec fn gap(a: u64, b: u64) -> u64 {
    if a >= b {
        (a - b) as u64
    } else {
        0
    }
}

/// The narrowest positive gap between consecutive transitions.
pub open spec fn narrowest_pulse(s: Seq<(u64, Bit)>) -> Option<u64>
    decreases s.len(),
{
    if s.len() < 2 {
        None
    } else {
        let g = gap(s.last().0, s[s.len() - 2].0);
        let rest = narrowest_pulse(s.drop_last());
        if g > 0 {
            match rest {
                None => Some(g),
                Some(m) => Some(if m <= g { m } else { g }),
            }
        } else {
            rest
        }
    }
}

/// The bit period to decode with: the configured one if it is positive, none
/// if it is zero, else the narrowest pulse on the line.
pub open spec fn resolve_spec(s: UartSettings, line: Seq<(u64, Bit)>) -> Option<u64> {
    match s.bit_period {
        Some(p) => if p > 0 {
            Some(p)
        } else {
            None
        },
        None => narrowest_pulse(line),
    }
}

/// Data bits per frame, clamped to 1..=9.
pub open spec fn data_bits_spec(s: UartSettings) -> nat {
    if s.data_bits < 1 {
        1
    } else if s.data_bits > 9 {
        9
    } else {
        s.data_bits as nat
    }
}

pub open spec fn parity_bits_spec(s: UartSettings) -> nat {
    if s.parity != Parity::Off {
        1
    } else {
        0
    }
}

/// Stop bits per frame, clamped to 1..=2.
pub open spec fn stop_bits_spec(s: UartSettings) -> nat {
    if s.stop_bits < 1 {
        1
    } else if s.stop_bits > 2 {
        2
    } else {
        s.stop_bits as nat
    }
}

/// Bits per frame: start, data, parity and stop.
pub open spec fn frame_bits_spec(s: UartSettings) -> nat {
    1 + data_bits_spec(s) + parity_bits_spec(s) + stop_bits_spec(s)
}

/// The middle of bit `index` of the frame starting at `start`.
pub open spec fn centre(start: u64, index: nat, period: u64) -> int {
    start + index * period + period / 2
}

/// What the line holds in the middle of bit `index`.
pub open spec fn sample_at(line: Seq<(u64, Bit)>, start: u64, index: nat, period: u64) -> Option<Bit> {
    value_at_spec(line, centre(start, index, period) as u64)
}

/// Data bit `i`, as a logical value: a 1 is the idle level.
pub open spec fn data_bools(s: UartSettings, line: Seq<(u64, Bit)>, start: u64, period: u64) -> Seq<bool> {
    Seq::new(data_bits_spec(s), |i: int| sample_at(line, start, (i + 1) as nat, period) == Some(idle_spec(s)))
}

/// Every data bit is a clean 0 or 1.
pub open spec fn data_clean(s: UartSettings, line: Seq<(u64, Bit)>, start: u64, period: u64) -> bool {
    forall|i: nat| i < data_bits_spec(s) ==> sample_valid(#[trigger] sample_at(line, start, i + 1, period))
}

/// Number of `true`s.
pub open spec fn count_true(bs: Seq<bool>) -> nat
    decreases bs.len(),
{
    if bs.len() == 0 {
        0
    } else {
        count_true(bs.drop_last()) + (if bs.last() { 1nat } else { 0nat })
    }
}

/// The parity bit agrees with the data: even parity makes the number of ones
/// including the parity bit even, odd parity makes it odd. Like the data bits,
/// the parity bit is a 1 at the idle level, so an inverted line reads the same.
pub open spec fn parity_ok(s: UartSettings, line: Seq<(u64, Bit)>, start: u64, period: u64) -> bool {
    s.parity == Parity::Off || {
        let got = sample_at(line, start, data_bits_spec(s) + 1, period) == Some(idle_spec(s));
        let expected = (count_true(data_bools(s, line, start, period)) % 2 == 1) == (s.parity == Parity::Even);
        got == expected
    }
}

/// Every stop bit is at the idle level.
pub open spec fn stops_ok(s: UartSettings, line: Seq<(u64, Bit)>, start: u64, period: u64) -> bool {
    forall|k: nat|
        k < stop_bits_spec(s) ==> #[trigger] sample_at(
            line,
            start,
            data_bits_spec(s) + parity_bits_spec(s) + 1 + k,
            period,
        ) == Some(idle_spec(s))
}

/// The word decoded from the frame whose start bit begins at `start`. An
/// unclean data bit, a parity mismatch or a stop bit off the idle level makes
/// it an error, reported in that order of precedence.
pub open spec fn frame_word(s: UartSettings, line: Seq<(u64, Bit)>, start: u64, period: u64) -> WordSpec {
    let end = (start + frame_bits_spec(s) * period) as u64;
    if !data_clean(s, line, start, period) {
        WordSpec { start, end, text: "x"@, kind: WordKind::Error }
    } else if !parity_ok(s, line, start, period) {
        WordSpec { start, end, text: "parity"@, kind: WordKind::Error }
    } else if !stops_ok(s, line, start, period) {
        WordSpec { start, end, text: "framing"@, kind: WordKind::Error }
    } else {
        WordSpec {
            start,
            end,
            text: format_spec(s.format, word_value(data_bools(s, line, start, period), s.bit_order), data_bits_spec(s)),
            kind: WordKind::Data,
        }
    }
}

/// The decode after some candidate start edges: the words so far, the first
/// time not covered by a decoded frame, and whether every time computed so far
/// fits in a `u64`.
pub struct UartScan {
    pub words: Seq<WordSpec>,
    pub next_free: u64,
    pub fits: bool,
}

/// One candidate start edge. Edges inside a decoded frame are data
/// transitions; an edge whose line is back at idle half a bit later is a
/// glitch; any other edge starts a frame.
pub open spec fn uart_step(s: UartSettings, line: Seq<(u64, Bit)>, period: u64, st: UartScan, start: u64) -> UartScan {
    if !st.fits || start < st.next_free {
        st
    } else if start + period / 2 > u64::MAX {
        UartScan { words: st.words, next_free: st.next_free, fits: false }
    } else if value_at_spec(line, (start + period / 2) as u64) != Some(start_spec(s)) {
        st
    } else if start + frame_bits_spec(s) * period > u64::MAX {
        UartScan { words: st.words, next_free: st.next_free, fits: false }
    } else {
        UartScan {
            words: st.words.push(frame_word(s, line, start, period)),
            next_free: (start + frame_bits_spec(s) * period) as u64,
            fits: true,
        }
    }
}

pub open spec fn uart_scan(s: UartSettings, line: Seq<(u64, Bit)>, period: u64, starts: Seq<u64>) -> UartScan
    decreases starts.len(),
{
    if starts.len() == 0 {
        UartScan { words: Seq::empty(), next_free: 0, fits: true }
    } else {
        uart_step(s, line, period, uart_scan(s, line, period, starts.drop_last()), starts.last())
    }
}

/// The words decoded from `line`: none without a usable bit period.
pub open spec fn uart_words(s: UartSettings, line: Seq<(u64, Bit)>) -> Seq<WordSpec> {
    match resolve_spec(s, line) {
        None => Seq::empty(),
        Some(p) => uart_scan(s, line, p, edges_to_spec(line, start_spec(s))).words,
    }
}

/// Decoding `line` computes no time beyond `u64::MAX`. For a sorted line this
/// is exactly the decode's own arithmetic; for an unsorted one, whose lookups
/// are unspecified, every candidate frame must fit.
pub open spec fn uart_line_fits(s: UartSettings, line: Seq<(u64, Bit)>) -> bool {
    match resolve_spec(s, line) {
        None => true,
        Some(p) => {
            let starts = edges_to_spec(line, start_spec(s));
            if time_sorted(line) {
                uart_scan(s, line, p, starts).fits
            } else {
                forall|i: int| 0 <= i < starts.len() ==> #[trigger] starts[i] + frame_bits_spec(s) * p <= u64::MAX
            }
        },
    }
}

/// The bound lanes can be decoded without arithmetic overflow.
pub open spec fn uart_fits(s: UartSettings, lanes: Seq<Option<BitLane>>) -> bool {
    match lane_of(lanes, LINE as int) {
        None => true,
        Some(line) => uart_line_fits(s, line),
    }
}

/// What decoding a UART line produces: one row of frames, empty without the
/// line or without a usable bit period, and for a sorted line exactly its
/// decoded frames.
pub open spec fn uart_decoded(s: UartSettings, lanes: Seq<Option<BitLane>>, out: Seq<DecodedLane>) -> bool {
    &&& out.len() == 1
    &&& out[0]@.name == "Data"@
    &&& lane_of(lanes, LINE as int) is None ==> out[0]@.words.len() == 0
    &&& lane_of(lanes, LINE as int) matches Some(line) ==> (resolve_spec(s, line) is None ==> out[0]@.words.len()
        == 0)
    &&& lane_of(lanes, LINE as int) matches Some(line) ==> (time_sorted(line) ==> out[0]@.words == uart_words(
        s,
        line,
    ))
}

/// 8N1, LSB first, idle high, rate measured from the trace, shown as ASCII.
pub open spec fn default_uart() -> UartSettings {
    UartSettings {
        bit_period: None,
        data_bits: 8,
        parity: Parity::Off,
        stop_bits: 1,
        bit_order: BitOrder::LsbFirst,
        idle_high: true,
        format: WordFormat::Ascii,
    }
}

/// Decoded frames lie one after another: each starts no later than it ends,
/// none begins before an earlier one has ended, and none ends after the first
/// time left free.
pub open spec fn frames_disjoint(words: Seq<WordSpec>, next_free: u64) -> bool {
    &&& forall|i: int| 0 <= i < words.len() ==> (#[trigger] words[i]).start <= words[i].end
    &&& forall|i: int, j: int|
        0 <= i < j < words.len() ==> (#[trigger] words[i]).end <= (#[trigger] words[j]).start
    &&& forall|i: int| 0 <= i < words.len() ==> (#[trigger] words[i]).end <= next_free
}

/// A frame covers its start bit through its last stop bit.
proof fn lemma_frame_span(s: UartSettings, line: Seq<(u64, Bit)>, start: u64, period: u64)
    ensures
        frame_word(s, line, start, period).start == start,
        frame_word(s, line, start, period).end == (start + frame_bits_spec(s) * period) as u64,
{
}

/// One candidate start edge keeps the decoded frames disjoint.
proof fn lemma_uart_step_disjoint(s: UartSettings, line: Seq<(u64, Bit)>, period: u64, st: UartScan, start: u64)
    requires
        frames_disjoint(st.words, st.next_free),
    ensures
        frames_disjoint(uart_step(s, line, period, st, start).words, uart_step(s, line, period, st, start).next_free),
{
    let nx = uart_step(s, line, period, st, start);
    if nx.words.len() != st.words.len() {
        let w = frame_word(s, line, start, period);
        lemma_frame_span(s, line, start, period);
        assert(nx.words == st.words.push(w));
        assert(start + frame_bits_spec(s) * period <= u64::MAX);
        assert(frame_bits_spec(s) * period >= 0) by (nonlinear_arith);
        assert forall|i: int, j: int| 0 <= i < j < nx.words.len() implies (#[trigger] nx.words[i]).end <= (
        #[trigger] nx.words[j]).start by {
            assert(nx.words[i] == st.words[i]);
            if j < st.words.len() {
                assert(nx.words[j] == st.words[j]);
            }
        }
        assert forall|i: int| 0 <= i < nx.words.len() implies (#[trigger] nx.words[i]).start <= nx.words[i].end
            && nx.words[i].end <= nx.next_free by {
            if i < st.words.len() {
                assert(nx.words[i] == st.words[i]);
            }
        }
    }
}

/// Frames never overlap: whatever the candidate start edges, each decoded
/// frame begins no earlier than the previous one ended.
pub proof fn law_uart_frames_disjoint(s: UartSettings, line: Seq<(u64, Bit)>, period: u64, starts: Seq<u64>)
    ensures
        frames_disjoint(uart_scan(s, line, period, starts).words, uart_scan(s, line, period, starts).next_free),
    decreases starts.len(),
{
    if starts.len() > 0 {
        law_uart_frames_disjoint(s, line, period, starts.drop_last());
        lemma_uart_step_disjoint(s, line, period, uart_scan(s, line, period, starts.drop_last()), starts.last());
    }
}

/// Every decoded frame begins at one of the candidate start edges and lasts
/// exactly its frame's bits: start, data, parity and stop, one period each.
pub proof fn law_uart_frame_spans(s: UartSettings, line: Seq<(u64, Bit)>, period: u64, starts: Seq<u64>)
    ensures
        ({
            let w = uart_scan(s, line, period, starts).words;
            forall|i: int|
                0 <= i < w.len() ==> {
                    &&& (#[trigger] w[i]).end == w[i].start + frame_bits_spec(s) * period
                    &&& starts.contains(w[i].start)
                }
        }),
    decreases starts.len(),
{
    if starts.len() > 0 {
        let d = starts.drop_last();
        law_uart_frame_spans(s, line, period, d);
        let st = uart_scan(s, line, period, d);
        let nx = uart_scan(s, line, period, starts);
        let start = starts.last();
        lemma_frame_span(s, line, start, period);
        assert forall|i: int| 0 <= i < nx.words.len() implies {
            &&& (#[trigger] nx.words[i]).end == nx.words[i].start + frame_bits_spec(s) * period
            &&& starts.contains(nx.words[i].start)
        } by {
            if i < st.words.len() {
                assert(nx.words[i] == st.words[i]);
                let j = choose|j: int| 0 <= j < d.len() && d[j] == st.words[i].start;
                assert(starts[j] == d[j]);
            } else {
                assert(nx.words[i] == frame_word(s, line, start, period));
                assert(start + frame_bits_spec(s) * period <= u64::MAX);
                assert(starts[starts.len() - 1] == start);
            }
        }
    }
}

/// Which candidate edges start a frame: over the whole list of candidates,
/// edge `k` starts a frame exactly when it is at or after the end of the
/// previous frame (0 before any) and half a bit later the line is at the
/// start level; the frame is then the one read from that edge, and the next
/// frame may start where it ends.
pub proof fn law_uart_frame_starts(s: UartSettings, line: Seq<(u64, Bit)>, period: u64, starts: Seq<u64>, k: int)
    requires
        0 <= k < starts.len(),
        uart_scan(s, line, period, starts.take(k + 1)).fits,
    ensures
        ({
            let before = uart_scan(s, line, period, starts.take(k));
            let after = uart_scan(s, line, period, starts.take(k + 1));
            let e = starts[k];
            let begins = e >= before.next_free && value_at_spec(line, (e + period / 2) as u64) == Some(
                start_spec(s),
            );
            &&& begins ==> after.words == before.words.push(frame_word(s, line, e, period))
                && after.next_free == e + frame_bits_spec(s) * period
            &&& !begins ==> after.words == before.words && after.next_free == before.next_free
        }),
{
    let t1 = starts.take(k + 1);
    assert(t1.drop_last() =~= starts.take(k));
    assert(t1.last() == starts[k]);
}

/// The narrowest pulse of a line is its smallest positive gap between
/// consecutive transitions: it is one of those gaps and no positive gap is
/// shorter; without a positive gap there is none.
proof fn lemma_narrowest_pulse(line: Seq<(u64, Bit)>)
    ensures
        narrowest_pulse(line) matches Some(p) ==> {
            &&& p > 0
            &&& exists|i: int| 0 <= i && i + 1 < line.len() && #[trigger] line[i + 1].0 - line[i].0 == p
            &&& forall|i: int|
                0 <= i && i + 1 < line.len() && line[i + 1].0 > (#[trigger] line[i]).0 ==> p <= line[i + 1].0
                    - line[i].0
        },
        narrowest_pulse(line) is None ==> forall|i: int|
            0 <= i && i + 1 < line.len() ==> line[i + 1].0 <= (#[trigger] line[i]).0,
    decreases line.len(),
{
    if line.len() >= 2 {
        let d = line.drop_last();
        lemma_narrowest_pulse(d);
        let n = line.len();
        let g = gap(line.last().0, line[n - 2].0);
        if let Some(p) = narrowest_pulse(line) {
            if let Some(m) = narrowest_pulse(d) {
                let i = choose|i: int| 0 <= i && i + 1 < d.len() && #[trigger] d[i + 1].0 - d[i].0 == m;
                assert(line[i + 1].0 - line[i].0 == m);
            }
            if g > 0 && p == g {
                assert(line[n - 1].0 - line[n - 2].0 == p);
            }
            assert forall|i: int|
                0 <= i && i + 1 < line.len() && line[i + 1].0 > (#[trigger] line[i]).0 implies p <= line[i + 1].0
                - line[i].0 by {
                if i + 1 < d.len() {
                    assert(d[i] == line[i] && d[i + 1] == line[i + 1]);
                } else {
                    assert(i == n - 2);
                }
            }
        } else {
            assert forall|i: int| 0 <= i && i + 1 < line.len() implies line[i + 1].0 <= (#[trigger] line[i]).0 by {
                if i + 1 < d.len() {
                    assert(d[i] == line[i] && d[i + 1] == line[i + 1]);
                }
            }
        }
    }
}

/// Without a configured bit period, the period measured from a line is its
/// narrowest pulse: one of its positive gaps between consecutive
/// transitions, with no positive gap shorter; a line without a positive gap
/// gives no period.
pub proof fn law_measured_bit_period(s: UartSettings, line: Seq<(u64, Bit)>)
    requires
        s.bit_period is None,
    ensures
        resolve_spec(s, line) matches Some(p) ==> {
            &&& p > 0
            &&& exists|i: int| 0 <= i && i + 1 < line.len() && #[trigger] line[i + 1].0 - line[i].0 == p
            &&& forall|i: int|
                0 <= i && i + 1 < line.len() && line[i + 1].0 > (#[trigger] line[i]).0 ==> p <= line[i + 1].0
                    - line[i].0
        },
        resolve_spec(s, line) is None ==> forall|i: int|
            0 <= i && i + 1 < line.len() ==> line[i + 1].0 <= (#[trigger] line[i]).0,
{
    lemma_narrowest_pulse(line);
}

/// The frames decoded from a line are ordered and never overlap.
pub proof fn law_uart_words_disjoint(s: UartSettings, line: Seq<(u64, Bit)>)
    ensures
        ({
            let w = uart_words(s, line);
            &&& forall|i: int| 0 <= i < w.len() ==> (#[trigger] w[i]).start <= w[i].end
            &&& forall|i: int, j: int| 0 <= i < j < w.len() ==> (#[trigger] w[i]).end <= (#[trigger] w[j]).start
        }),
{
    if let Some(p) = resolve_spec(s, line) {
        law_uart_frames_disjoint(s, line, p, edges_to_spec(line, start_spec(s)));
    }
}

/// The opposite level; an invalid level stays invalid.
pub open spec fn invert_bit(b: Bit) -> Bit {
    match b {
        Bit::Zero => Bit::One,
        Bit::One => Bit::Zero,
        Bit::Invalid => Bit::Invalid,
    }
}

/// The same transitions at the opposite levels.
pub open spec fn invert_line(line: Seq<(u64, Bit)>) -> Seq<(u64, Bit)> {
    line.map_values(|p: (u64, Bit)| (p.0, invert_bit(p.1)))
}

proof fn lemma_invert_drop_last(line: Seq<(u64, Bit)>)
    requires
        line.len() > 0,
    ensures
        invert_line(line).drop_last() == invert_line(line.drop_last()),
{
    assert(invert_line(line).drop_last() =~= invert_line(line.drop_last()));
}

/// An inverted line holds the opposite level at every time.
proof fn lemma_invert_value_at(line: Seq<(u64, Bit)>, t: u64)
    ensures
        value_at_spec(invert_line(line), t) == match value_at_spec(line, t) {
            Some(b) => Some(invert_bit(b)),
            None => None,
        },
    decreases line.len(),
{
    if line.len() > 0 {
        lemma_invert_drop_last(line);
        lemma_invert_value_at(line.drop_last(), t);
    }
}

/// An inverted line moves to the opposite level exactly where the line moves
/// to a level.
proof fn lemma_invert_edges(line: Seq<(u64, Bit)>, to: Bit)
    ensures
        edges_to_spec(invert_line(line), invert_bit(to)) == edges_to_spec(line, to),
    decreases line.len(),
{
    if line.len() >= 2 {
        lemma_invert_drop_last(line);
        lemma_invert_edges(line.drop_last(), to);
        let inv = invert_line(line);
        assert(inv[line.len() - 2].1 == invert_bit(line[line.len() - 2].1));
        assert(inv.last().1 == invert_bit(line.last().1));
    }
}

/// Inverting a line keeps its transition times, so its narrowest pulse.
proof fn lemma_invert_pulse(line: Seq<(u64, Bit)>)
    ensures
        narrowest_pulse(invert_line(line)) == narrowest_pulse(line),
    decreases line.len(),
{
    if line.len() >= 2 {
        lemma_invert_drop_last(line);
        lemma_invert_pulse(line.drop_last());
        let inv = invert_line(line);
        assert(inv[line.len() - 2].0 == line[line.len() - 2].0);
        assert(inv.last().0 == line.last().0);
    }
}

/// Settings that differ only in the idle level.
pub open spec fn with_idle(s: UartSettings, idle_high: bool) -> UartSettings {
    UartSettings { idle_high, ..s }
}

/// An idle-low decoder reads from an inverted line the frame an idle-high
/// decoder reads from the line.
proof fn lemma_invert_frame(s: UartSettings, line: Seq<(u64, Bit)>, start: u64, period: u64)
    ensures
        frame_word(with_idle(s, false), invert_line(line), start, period) == frame_word(
            with_idle(s, true),
            line,
            start,
            period,
        ),
{
    let lo = with_idle(s, false);
    let hi = with_idle(s, true);
    let inv = invert_line(line);
    assert forall|i: nat| true implies sample_at(inv, start, i, period) == match sample_at(line, start, i, period) {
        Some(b) => Some(invert_bit(b)),
        None => None,
    } by {
        lemma_invert_value_at(line, centre(start, i, period) as u64);
    }
    assert(data_clean(lo, inv, start, period) == data_clean(hi, line, start, period)) by {
        if data_clean(hi, line, start, period) {
            assert forall|i: nat| i < data_bits_spec(lo) implies sample_valid(
                #[trigger] sample_at(inv, start, i + 1, period),
            ) by {
                assert(sample_valid(sample_at(line, start, i + 1, period)));
            }
        }
        if data_clean(lo, inv, start, period) {
            assert forall|i: nat| i < data_bits_spec(hi) implies sample_valid(
                #[trigger] sample_at(line, start, i + 1, period),
            ) by {
                assert(sample_valid(sample_at(inv, start, i + 1, period)));
            }
        }
    }
    assert(data_bools(lo, inv, start, period) =~= data_bools(hi, line, start, period)) by {
        assert forall|i: int| 0 <= i < data_bits_spec(lo) implies data_bools(lo, inv, start, period)[i]
            == data_bools(hi, line, start, period)[i] by {
            assert(sample_at(inv, start, (i + 1) as nat, period) == match sample_at(line, start, (i + 1) as nat, period) {
                Some(b) => Some(invert_bit(b)),
                None => None,
            });
        }
    }
    assert(parity_ok(lo, inv, start, period) == parity_ok(hi, line, start, period)) by {
        assert(sample_at(inv, start, data_bits_spec(s) + 1, period) == match sample_at(
            line,
            start,
            data_bits_spec(s) + 1,
            period,
        ) {
            Some(b) => Some(invert_bit(b)),
            None => None,
        });
    }
    assert(stops_ok(lo, inv, start, period) == stops_ok(hi, line, start, period)) by {
        let base = data_bits_spec(s) + parity_bits_spec(s) + 1;
        if stops_ok(hi, line, start, period) {
            assert forall|k: nat| k < stop_bits_spec(lo) implies #[trigger] sample_at(inv, start, base + k, period)
                == Some(idle_spec(lo)) by {
                assert(sample_at(line, start, base + k, period) == Some(idle_spec(hi)));
            }
        }
        if stops_ok(lo, inv, start, period) {
            assert forall|k: nat| k < stop_bits_spec(hi) implies #[trigger] sample_at(line, start, base + k, period)
                == Some(idle_spec(hi)) by {
                assert(sample_at(inv, start, base + k, period) == Some(idle_spec(lo)));
            }
        }
    }
}

/// An idle-low scan of an inverted line follows an idle-high scan of the
/// line step for step.
proof fn lemma_invert_scan(s: UartSettings, line: Seq<(u64, Bit)>, period: u64, starts: Seq<u64>)
    ensures
        uart_scan(with_idle(s, false), invert_line(line), period, starts) == uart_scan(
            with_idle(s, true),
            line,
            period,
            starts,
        ),
    decreases starts.len(),
{
    if starts.len() > 0 {
        lemma_invert_scan(s, line, period, starts.drop_last());
        let start = starts.last();
        if start + period / 2 <= u64::MAX {
            lemma_invert_value_at(line, (start + period / 2) as u64);
        }
        lemma_invert_frame(s, line, start, period);
    }
}

/// An idle-low decoder reads an inverted line as an idle-high decoder reads
/// the line itself: data, parity and stop bits all invert with the line.
pub proof fn law_uart_idle_low_inverts(s: UartSettings, line: Seq<(u64, Bit)>)
    ensures
        uart_words(with_idle(s, false), invert_line(line)) == uart_words(with_idle(s, true), line),
{
    lemma_invert_pulse(line);
    lemma_invert_edges(line, Bit::Zero);
    if let Some(p) = resolve_spec(with_idle(s, true), line) {
        lemma_invert_scan(s, line, p, edges_to_spec(line, Bit::Zero));
    }
}

/// Once a time does not fit, the scan stays that way.
proof fn lemma_fits_prefix(s: UartSettings, line: Seq<(u64, Bit)>, period: u64, starts: Seq<u64>, k: int)
    requires
        0 <= k <= starts.len(),
        uart_scan(s, line, period, starts).fits,
    ensures
        uart_scan(s, line, period, starts.take(k)).fits,
    decreases starts.len(),
{
    if k < starts.len() {
        assert(starts.drop_last().take(k) =~= starts.take(k));
        lemma_fits_prefix(s, line, period, starts.drop_last(), k);
    } else {
        assert(starts.take(k) =~= starts);
    }
}

impl UartSettings {
    #[must_use]
    pub fn lane_names(&self) -> (r: Vec<String>)
        ensures
            r@.len() == 1,
            r@[0]@ == "Data"@,
    {
        let mut r: Vec<String> = Vec::new();
        r.push("Data".to_string());
        r
    }

    fn idle(&self) -> (r: Bit)
        ensures
            r == idle_spec(*self),
    {
        if self.idle_high {
            Bit::One
        } else {
            Bit::Zero
        }
    }

    fn start(&self) -> (r: Bit)
        ensures
            r == start_spec(*self),
    {
        if self.idle_high {
            Bit::Zero
        } else {
            Bit::One
        }
    }

    /// Bit period to decode with: the configured one, else the narrowest pulse
    /// on the line, which is one bit whenever the data contains a bit that
    /// differs from both its neighbours.
    #[must_use]
    pub fn resolve_bit_period(&self, line: &BitLane) -> (r: Option<u64>)
        ensures
            r == resolve_spec(*self, line@),
            r matches Some(p) ==> p > 0,
    {
        if let Some(p) = self.bit_period {
            return if p > 0 {
                Some(p)
            } else {
                None
            };
        }
        let ghost s = line@;
        let mut best: Option<u64> = None;
        let mut i: usize = 1;
        if line.changes.len() < 2 {
            return None;
        }
        while i < line.changes.len()
            invariant
                s == line@,
                1 <= i <= s.len(),
                best == narrowest_pulse(s.take(i as int)),
                best matches Some(m) ==> m > 0,
            decreases s.len() - i,
        {
            let a = line.changes[i].0;
            let b = line.changes[i - 1].0;
            let d = a.saturating_sub(b);
            proof {
                assert(s.take(i + 1).drop_last() =~= s.take(i as int));
            }
            if d > 0 {
                best = match best {
                    None => Some(d),
                    Some(m) => Some(if m <= d {
                        m
                    } else {
                        d
                    }),
                };
            }
            i = i + 1;
        }
        assert(s.take(s.len() as int) =~= s);
        best
    }

    /// Decodes the line bound to `LINE` into one row of frames. Without the
    /// line, or without a usable bit period, the row is empty.
    #[must_use]
    pub fn decode(&self, lanes: &[Option<BitLane>]) -> (out: Vec<DecodedLane>)
        requires
            uart_fits(*self, lanes@),
        ensures
            uart_decoded(*self, lanes@, out@),
    {
        let ghost ls = lanes@;
        let name = "Data".to_string();
        let line: &BitLane = if lanes.len() > LINE {
            match &lanes[LINE] {
                Some(l) => l,
                None => {
                    let mut out: Vec<DecodedLane> = Vec::new();
                    out.push(super::empty_lane(name));
                    return out;
                },
            }
        } else {
            let mut out: Vec<DecodedLane> = Vec::new();
            out.push(super::empty_lane(name));
            return out;
        };
        assert(lane_of(ls, LINE as int) == Some(line@));
        let period = match self.resolve_bit_period(line) {
            Some(p) => p,
            None => {
                let mut out: Vec<DecodedLane> = Vec::new();
                out.push(super::empty_lane(name));
                return out;
            },
        };
        let words = self.decode_frames(line, period);
        let mut out: Vec<DecodedLane> = Vec::new();
        out.push(DecodedLane { name, words });
        out
    }

    /// Decodes every frame of `line` at bit period `period`.
    fn decode_frames(&self, line: &BitLane, period: u64) -> (words: Vec<DecodedWord>)
        requires
            period > 0,
            resolve_spec(*self, line@) == Some(period),
            uart_line_fits(*self, line@),
        ensures
            time_sorted(line@) ==> words_view(words@) == uart_words(*self, line@),
    {
        let ghost ok = time_sorted(line@);
        let data_bits: u32 = if self.data_bits < 1 {
            1
        } else if self.data_bits > 9 {
            9
        } else {
            self.data_bits
        };
        let parity_bits: u32 = if self.parity != Parity::Off {
            1
        } else {
            0
        };
        let stop_bits: u32 = if self.stop_bits < 1 {
            1
        } else if self.stop_bits > 2 {
            2
        } else {
            self.stop_bits
        };
        let frame_bits = 1 + data_bits + parity_bits + stop_bits;
        let starts = line.edges_to(self.start());
        let ghost st = starts@;
        proof {
            if ok {
                lemma_fits_prefix(*self, line@, period, st, 0);
            }
        }

        let mut words: Vec<DecodedWord> = Vec::new();
        let mut next_free: u64 = 0;
        let mut j: usize = 0;
        assert(words_view(words@) =~= Seq::<WordSpec>::empty());
        while j < starts.len()
            invariant
                st == starts@,
                st == edges_to_spec(line@, start_spec(*self)),
                j <= st.len(),
                period > 0,
                ok == time_sorted(line@),
                resolve_spec(*self, line@) == Some(period),
                uart_line_fits(*self, line@),
                data_bits == data_bits_spec(*self),
                parity_bits == parity_bits_spec(*self),
                stop_bits == stop_bits_spec(*self),
                frame_bits == frame_bits_spec(*self),
                ok ==> ({
                    let sc = uart_scan(*self, line@, period, st.take(j as int));
                    &&& sc.fits
                    &&& sc.next_free == next_free
                    &&& sc.words == words_view(words@)
                }),
            decreases st.len() - j,
        {
            let start = starts[j];
            let ghost prev = uart_scan(*self, line@, period, st.take(j as int));
            proof {
                assert(st.take(j + 1).drop_last() =~= st.take(j as int));
                if ok {
                    lemma_fits_prefix(*self, line@, period, st, j + 1);
                } else {
                    assert(st[j as int] + frame_bits_spec(*self) * period <= u64::MAX);
                }
            }
            // Skip edges that fall inside a frame already decoded: they are
            // data transitions, not the start of a new frame.
            if start < next_free {
                j = j + 1;
                continue;
            }
            proof {
                assert(frame_bits_spec(*self) * period >= period) by (nonlinear_arith)
                    requires
                        frame_bits_spec(*self) >= 1,
                ;
            }
            // Sample at the centre of each bit.
            let first_centre = start + period / 2;
            if line.value_at(first_centre) != Some(self.start()) {
                // A glitch narrower than half a bit, not a start bit.
                j = j + 1;
                continue;
            }
            let w = self.decode_frame(line, start, period, data_bits, parity_bits, stop_bits);
            let ghost before = words@;
            words.push(w);
            proof {
                assert(words_view(words@) =~= words_view(before).push(w@));
            }
            next_free = start + frame_bits as u64 * period;
            j = j + 1;
        }
        assert(st.take(st.len() as int) =~= st);
        words
    }

    /// The word carried by the frame starting at `start`.
    fn decode_frame(
        &self,
        line: &BitLane,
        start: u64,
        period: u64,
        data_bits: u32,
        parity_bits: u32,
        stop_bits: u32,
    ) -> (w: DecodedWord)
        requires
            period > 0,
            data_bits == data_bits_spec(*self),
            parity_bits == parity_bits_spec(*self),
            stop_bits == stop_bits_spec(*self),
            start + frame_bits_spec(*self) * period <= u64::MAX,
        ensures
            time_sorted(line@) ==> w@ == frame_word(*self, line@, start, period),
    {
        let ghost ok = time_sorted(line@);
        let ghost bools = data_bools(*self, line@, start, period);
        let frame_bits = 1 + data_bits + parity_bits + stop_bits;
        let idle = self.idle();
        proof {
            assert forall|k: nat| k < frame_bits implies centre(start, k, period) <= start + frame_bits
                * period by {
                assert(k * period + period / 2 <= frame_bits * period) by (nonlinear_arith)
                    requires
                        k < frame_bits,
                        period > 0,
                ;
            }
        }

        let mut value: u64 = 0;
        let mut ones: u32 = 0;
        let mut invalid = false;
        let mut i: u32 = 0;
        proof {
            lemma_pow2_pos(0);
            assert(bools.take(0) =~= Seq::<bool>::empty());
        }
        while i < data_bits
            invariant
                period > 0,
                data_bits == data_bits_spec(*self),
                parity_bits == parity_bits_spec(*self),
                stop_bits == stop_bits_spec(*self),
                frame_bits == frame_bits_spec(*self),
                start + frame_bits * period <= u64::MAX,
                forall|k: nat| k < frame_bits ==> centre(start, k, period) <= start + frame_bits * period,
                idle == idle_spec(*self),
                ok == time_sorted(line@),
                bools == data_bools(*self, line@, start, period),
                i <= data_bits,
                ones <= i,
                !invalid ==> value < pow2(i as nat),
                ok ==> ones == count_true(bools.take(i as int)),
                ok ==> (invalid == !(forall|k: nat| k < i ==> sample_valid(#[trigger] sample_at(line@, start, k + 1, period)))),
                ok && !invalid ==> value == word_value(bools.take(i as int), self.bit_order),
            decreases data_bits - i,
        {
            let c = start + (i as u64 + 1) * period + period / 2;
            assert(c == centre(start, (i + 1) as nat, period));
            let sample = line.value_at(c);
            let ghost prefix = bools.take(i as int);
            proof {
                assert(bools.take(i + 1).drop_last() =~= prefix);
                assert(bools.take(i + 1).last() == bools[i as int]);
            }
            match sample {
                Some(b) if b == Bit::Zero || b == Bit::One => {
                    // The idle level is a logical 1 (mark), so on an
                    // inverted line the data bits invert with it.
                    let is_one = b == idle;
                    if is_one {
                        ones = ones + 1;
                    }
                    if !invalid {
                        proof {
                            if ok {
                                lemma_word_value_bound(bools.take(i + 1), self.bit_order);
                            }
                        }
                        value = push_bit(value, i, is_one, self.bit_order);
                    }
                },
                _ => invalid = true,
            }
            proof {
                if ok {
                    assert forall|k: nat| k < i + 1 && !invalid implies sample_valid(
                        #[trigger] sample_at(line@, start, k + 1, period),
                    ) by {
                        if k == i {
                            assert(sample_at(line@, start, k + 1, period) == sample);
                        }
                    }
                    if invalid && !(exists|k: nat| k < i && !sample_valid(#[trigger] sample_at(line@, start, k + 1, period))) {
                        assert(!sample_valid(sample_at(line@, start, i as nat + 1, period)));
                    }
                }
            }
            i = i + 1;
        }
        proof {
            assert(bools.take(data_bits as int) =~= bools);
        }

        let mut error: u8 = if invalid {
            1
        } else {
            0
        };
        if self.parity != Parity::Off {
            assert(centre(start, (data_bits + 1) as nat, period) <= start + frame_bits * period);
            let c = start + (data_bits as u64 + 1) * period + period / 2;
            assert(c == centre(start, (data_bits + 1) as nat, period));
            let bit = line.value_at(c);
            let got = bit == Some(self.idle());
            let want_even = self.parity == Parity::Even;
            // Even parity makes the count of ones including the parity bit
            // even, so the bit is set when the data has an odd count.
            let expected = (ones % 2 == 1) == want_even;
            if got != expected && error == 0 {
                error = 2;
            }
        }

        // Every stop bit must be at the idle level. A frame that fails this
        // is usually a wrong bit period or bit count, so it is worth
        // reporting rather than silently emitting a plausible byte.
        let mut k: u32 = 0;
        let mut stops_good = true;
        while k < stop_bits
            invariant
                period > 0,
                data_bits == data_bits_spec(*self),
                parity_bits == parity_bits_spec(*self),
                stop_bits == stop_bits_spec(*self),
                frame_bits == frame_bits_spec(*self),
                start + frame_bits * period <= u64::MAX,
                forall|k: nat| k < frame_bits ==> centre(start, k, period) <= start + frame_bits * period,
                idle == idle_spec(*self),
                ok == time_sorted(line@),
                k <= stop_bits,
                ok ==> (stops_good == (forall|m: nat|
                    m < k ==> #[trigger] sample_at(line@, start, (data_bits + parity_bits + 1 + m) as nat, period)
                        == Some(idle_spec(*self)))),
            decreases stop_bits - k,
        {
            let idx = data_bits as u64 + parity_bits as u64 + 1 + k as u64;
            let c = start + idx * period + period / 2;
            assert(c == centre(start, idx as nat, period));
            let bit = line.value_at(c);
            proof {
                if ok {
                    if stops_good && bit == Some(idle) {
                        assert forall|m: nat| m < k + 1 implies #[trigger] sample_at(
                            line@,
                            start,
                            (data_bits + parity_bits + 1 + m) as nat,
                            period,
                        ) == Some(idle_spec(*self)) by {
                            if m == k {
                                assert(sample_at(line@, start, (data_bits + parity_bits + 1 + m) as nat, period) == bit);
                            }
                        }
                    }
                    if bit != Some(idle) {
                        assert(sample_at(line@, start, (data_bits + parity_bits + 1 + k) as nat, period) == bit);
                    }
                }
            }
            if bit != Some(idle) {
                stops_good = false;
            }
            k = k + 1;
        }
        if !stops_good && error == 0 {
            error = 3;
        }

        let end = start + frame_bits as u64 * period;
        let text = if error == 1 {
            "x".to_string()
        } else if error == 2 {
            "parity".to_string()
        } else if error == 3 {
            "framing".to_string()
        } else {
            self.format.format(value, data_bits)
        };
        DecodedWord {
            start,
            end,
            text,
            kind: if error != 0 {
                WordKind::Error
            } else {
                WordKind::Data
            },
        }
    }
}

} // verus!
