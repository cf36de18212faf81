//! SPI protocol decoder.
//!
//! Samples MOSI and MISO on the clock edge selected by CPOL/CPHA, gated by chip
//! select, and groups the sampled bits into words.

use vstd::prelude::*;

use vstd::arithmetic::power2::{lemma_pow2_pos, pow2};

use super::{
    times_sorted, edges_to_spec, format_spec, lemma_word_value_bound, push_bit, stretch_in_place,
    stretch_words, time_sorted, value_at_spec, word_value, words_view, Bit, BitLane, BitOrder,
    DecodedLane, DecodedWord, WordFormat, WordKind, WordSpec,
};
use crate::text::{decimal, decimal_text};

verus! {

broadcast use vstd::string::to_string_from_display_ensures_for_str;

/// Role indices. These are positional in the saved state, so only ever append.
pub const SCLK: usize = 0;

pub const MOSI: usize = 1;

pub const MISO: usize = 2;

pub const CS: usize = 3;

#[derive(Debug, Clone, Copy, PartialEq, Eq, Structural)]
pub struct SpiSettings {
    /// Clock polarity: the idle level of SCLK.
    pub cpol: bool,
    /// Clock phase: `false` samples on the leading edge, `true` on the trailing edge.
    pub cpha: bool,
    pub bit_order: BitOrder,
    /// Bits per word. 1..=64.
    pub word_size: u32,
    pub format: WordFormat,
    /// Whether chip select is active low.
    pub cs_active_low: bool,
}

impl Default for SpiSettings {
    /// Mode 0, 8-bit, MSB first, active-low CS: by far the most common.
    fn default() -> (r: Self)
        ensures
            r == default_spi(),
    {
        Self {
            cpol: false,
            cpha: false,
            bit_order: BitOrder::MsbFirst,
            word_size: 8,
            format: WordFormat::Hex,
            cs_active_low: true,
        }
    }
}

/// The transitions of role `i`, if that role is bound.
pub open spec fn lane_of(lanes: Seq<Option<BitLane>>, i: int) -> Option<Seq<(u64, Bit)>> {
    if 0 <= i < lanes.len() && lanes[i] is Some {
        Some(lanes[i]->0@)
    } else {
        None
    }
}

/// Every bound lane has its transitions in time order.
pub open spec fn lanes_sorted(lanes: Seq<Option<BitLane>>) -> bool {
    forall|i: int| 0 <= i < lanes.len() && #[trigger] lanes[i] is Some ==> time_sorted(lanes[i]->0@)
}

/// SPI mode number: CPOL is bit 1, CPHA bit 0.
pub open spec fn mode_spec(s: SpiSettings) -> u8 {
    ((if s.cpol { 2int } else { 0int }) + (if s.cpha { 1int } else { 0int })) as u8
}

/// The SCLK level whose arrival latches a bit: the rising edge exactly when
/// CPOL and CPHA agree.
pub open spec fn sampling_level_spec(s: SpiSettings) -> Bit {
    if s.cpol == s.cpha {
        Bit::One
    } else {
        Bit::Zero
    }
}

/// Whether chip select, given as its transitions, selects the slave at `t`.
/// Before CS has a value, or while it is x/z, the slave is not selected.
pub open spec fn cs_selects(s: SpiSettings, cs: Seq<(u64, Bit)>, t: u64) -> bool {
    match value_at_spec(cs, t) {
        Some(Bit::One) => !s.cs_active_low,
        Some(Bit::Zero) => s.cs_active_low,
        _ => false,
    }
}

/// Without a chip select line every clock edge is selected.
pub open spec fn selected_spec(s: SpiSettings, cs: Option<Seq<(u64, Bit)>>, t: u64) -> bool {
    match cs {
        None => true,
        Some(c) => cs_selects(s, c, t),
    }
}

/// A sampled data bit is usable only if it is a clean 0 or 1.
pub open spec fn sample_valid(b: Option<Bit>) -> bool {
    b == Some(Bit::Zero) || b == Some(Bit::One)
}

pub open spec fn all_valid(bits: Seq<Option<Bit>>) -> bool {
    forall|i: int| 0 <= i < bits.len() ==> sample_valid(#[trigger] bits[i])
}

pub open spec fn sample_bools(bits: Seq<Option<Bit>>) -> Seq<bool> {
    bits.map_values(|b: Option<Bit>| b == Some(Bit::One))
}

/// Text of a word that received only `count` of its `total` bits.
pub open spec fn partial_text(count: nat, total: nat) -> Seq<char> {
    decimal(count) + " of "@ + decimal(total) + " bits"@
}

/// A word that received all its bits: its value in the configured format, or
/// `x` if any bit was not a clean 0 or 1.
#[verifier::opaque]
pub open spec fn complete_word(s: SpiSettings, start: u64, end: u64, bits: Seq<Option<Bit>>) -> WordSpec {
    if all_valid(bits) {
        WordSpec {
            start,
            end,
            text: format_spec(s.format, word_value(sample_bools(bits), s.bit_order), bits.len()),
            kind: WordKind::Data,
        }
    } else {
        WordSpec { start, end, text: "x"@, kind: WordKind::Error }
    }
}

/// The state of an SPI data line's decode after some sampling edges: the
/// words finished so far, the bits of the word in progress, the first edge of
/// that word, and whether the previous edge was selected.
pub struct SpiScan {
    pub words: Seq<WordSpec>,
    pub pending: Seq<Option<Bit>>,
    pub word_start: u64,
    pub was_selected: bool,
}

/// One sampling edge at `t`: a deselect cuts the word in progress short;
/// a selected edge samples the data line into the word, which is complete
/// after `ws` bits.
pub open spec fn spi_step(
    s: SpiSettings,
    data: Seq<(u64, Bit)>,
    cs: Option<Seq<(u64, Bit)>>,
    ws: nat,
    st: SpiScan,
    t: u64,
) -> SpiScan {
    let sel = selected_spec(s, cs, t);
    let cut = st.was_selected && !sel && st.pending.len() > 0;
    let words = if cut {
        st.words.push(
            WordSpec {
                start: st.word_start,
                end: t,
                text: partial_text(st.pending.len(), ws),
                kind: WordKind::Error,
            },
        )
    } else {
        st.words
    };
    let pending = if cut {
        Seq::empty()
    } else {
        st.pending
    };
    if !sel {
        SpiScan { words, pending, word_start: st.word_start, was_selected: false }
    } else {
        let start = if pending.len() == 0 {
            t
        } else {
            st.word_start
        };
        let bits = pending.push(value_at_spec(data, t));
        if bits.len() == ws {
            SpiScan {
                words: words.push(complete_word(s, start, t, bits)),
                pending: Seq::empty(),
                word_start: start,
                was_selected: true,
            }
        } else {
            SpiScan { words, pending: bits, word_start: start, was_selected: true }
        }
    }
}

pub open spec fn spi_scan(
    s: SpiSettings,
    data: Seq<(u64, Bit)>,
    cs: Option<Seq<(u64, Bit)>>,
    ws: nat,
    samples: Seq<u64>,
) -> SpiScan
    decreases samples.len(),
{
    if samples.len() == 0 {
        SpiScan { words: Seq::empty(), pending: Seq::empty(), word_start: 0, was_selected: false }
    } else {
        spi_step(s, data, cs, ws, spi_scan(s, data, cs, ws, samples.drop_last()), samples.last())
    }
}

/// The words decoded from one data line sampled at `samples`: the finished
/// words, then a word left in progress at the end of the trace as an error,
/// each stretched to meet the next.
pub open spec fn spi_words(
    s: SpiSettings,
    data: Seq<(u64, Bit)>,
    cs: Option<Seq<(u64, Bit)>>,
    ws: nat,
    samples: Seq<u64>,
) -> Seq<WordSpec> {
    let st = spi_scan(s, data, cs, ws, samples);
    let raw = if st.pending.len() > 0 {
        st.words.push(
            WordSpec {
                start: st.word_start,
                end: samples.last(),
                text: partial_text(st.pending.len(), ws),
                kind: WordKind::Error,
            },
        )
    } else {
        st.words
    };
    stretch_words(raw)
}

/// The word size actually used: the setting clamped to 1..=64.
pub open spec fn clamped_word_size(s: SpiSettings) -> nat {
    if s.word_size < 1 {
        1
    } else if s.word_size > 64 {
        64
    } else {
        s.word_size as nat
    }
}

/// The decoded words of the data role `data_idx` (MOSI or MISO).
pub open spec fn spi_lane_words(s: SpiSettings, lanes: Seq<Option<BitLane>>, data_idx: int) -> Seq<WordSpec> {
    match (lane_of(lanes, SCLK as int), lane_of(lanes, data_idx)) {
        (Some(sclk), Some(data)) => spi_words(
            s,
            data,
            lane_of(lanes, CS as int),
            clamped_word_size(s),
            edges_to_spec(sclk, sampling_level_spec(s)),
        ),
        _ => Seq::empty(),
    }
}

/// What decoding SPI lanes produces: the MOSI row and the MISO row, in that
/// order; a missing clock or data line leaves its row empty, and for sorted
/// lanes each row holds the words of its data line.
pub open spec fn spi_decoded(s: SpiSettings, lanes: Seq<Option<BitLane>>, out: Seq<DecodedLane>) -> bool {
    &&& out.len() == 2
    &&& out[0]@.name == "MOSI"@
    &&& out[1]@.name == "MISO"@
    &&& lane_of(lanes, SCLK as int) is None ==> out[0]@.words.len() == 0 && out[1]@.words.len() == 0
    &&& lane_of(lanes, MOSI as int) is None ==> out[0]@.words.len() == 0
    &&& lane_of(lanes, MISO as int) is None ==> out[1]@.words.len() == 0
    &&& lanes_sorted(lanes) ==> out[0]@.words == spi_lane_words(s, lanes, MOSI as int)
    &&& lanes_sorted(lanes) ==> out[1]@.words == spi_lane_words(s, lanes, MISO as int)
}

/// Mode 0, 8-bit, MSB first, active-low CS.
pub open spec fn default_spi() -> SpiSettings {
    SpiSettings {
        cpol: false,
        cpha: false,
        bit_order: BitOrder::MsbFirst,
        word_size: 8,
        format: WordFormat::Hex,
        cs_active_low: true,
    }
}

/// The state of the scan, as the decoding loop holds it.
pub open spec fn scan_matches(
    st: SpiScan,
    words: Seq<DecodedWord>,
    count: u32,
    word_start: u64,
    was_selected: bool,
    invalid: bool,
    acc: u64,
    order: BitOrder,
) -> bool {
    &&& words_view(words) == st.words
    &&& st.pending.len() == count
    &&& st.word_start == word_start
    &&& st.was_selected == was_selected
    &&& invalid == !all_valid(st.pending)
    &&& !invalid ==> acc == word_value(sample_bools(st.pending), order)
}

fn partial_word_text(count: u32, total: u32) -> (r: String)
    ensures
        r@ == partial_text(count as nat, total as nat),
{
    let mut r = decimal_text(count as u64);
    r.append(" of ");
    r.append(&decimal_text(total as u64));
    r.append(" bits");
    r
}

// ---------------------------------------------------------------------------
// Laws.

/// Setting a mode and reading it back gives that mode, for each of the four
/// modes; setting the mode a configuration already has changes nothing.
pub proof fn law_mode_round_trip(s: SpiSettings, m: u8)
    requires
        m < 4,
    ensures
        mode_spec(SpiSettings { cpol: (m / 2) % 2 == 1, cpha: m % 2 == 1, ..s }) == m,
        ({
            let k = mode_spec(s);
            SpiSettings { cpol: (k / 2) % 2 == 1, cpha: k % 2 == 1, ..s } == s
        }),
{
}

/// The shape of a scan whose edges all lie at or before `last`: each word
/// starts no later than it ends, each ends no later than the next starts, and
/// the word in progress starts after the last finished one.
pub open spec fn scan_ordered(st: SpiScan, last: u64, ws: nat) -> bool {
    &&& forall|i: int| 0 <= i < st.words.len() ==> (#[trigger] st.words[i]).start <= st.words[i].end
    &&& forall|i: int, j: int|
        0 <= i < j < st.words.len() ==> (#[trigger] st.words[i]).end <= (#[trigger] st.words[j]).start
    &&& forall|i: int| 0 <= i < st.words.len() ==> (#[trigger] st.words[i]).end <= last
    &&& st.pending.len() > 0 ==> st.word_start <= last
    &&& st.pending.len() > 0 ==> forall|i: int| 0 <= i < st.words.len() ==> (#[trigger] st.words[i]).end <= st.word_start
    &&& st.pending.len() < ws
}

/// Pushing a word that starts after every word of an ordered list and ends
/// no earlier than it starts keeps the list ordered.
proof fn lemma_push_ordered(words: Seq<WordSpec>, w: WordSpec, last: u64)
    requires
        forall|i: int| 0 <= i < words.len() ==> (#[trigger] words[i]).start <= words[i].end,
        forall|i: int, j: int|
            0 <= i < j < words.len() ==> (#[trigger] words[i]).end <= (#[trigger] words[j]).start,
        forall|i: int| 0 <= i < words.len() ==> (#[trigger] words[i]).end <= w.start,
        w.start <= w.end,
        w.end <= last,
    ensures
        ({
            let nw = words.push(w);
            &&& forall|i: int| 0 <= i < nw.len() ==> (#[trigger] nw[i]).start <= nw[i].end
            &&& forall|i: int, j: int|
                0 <= i < j < nw.len() ==> (#[trigger] nw[i]).end <= (#[trigger] nw[j]).start
            &&& forall|i: int| 0 <= i < nw.len() ==> (#[trigger] nw[i]).end <= last
        }),
{
    let nw = words.push(w);
    assert forall|i: int, j: int| 0 <= i < j < nw.len() implies (#[trigger] nw[i]).end <= (
    #[trigger] nw[j]).start by {
        assert(nw[i] == words[i]);
        if j < words.len() {
            assert(nw[j] == words[j]);
        }
    }
    assert forall|i: int| 0 <= i < nw.len() implies (#[trigger] nw[i]).start <= nw[i].end by {
        if i < words.len() {
            assert(nw[i] == words[i]);
        }
    }
}

/// Raising the bound keeps the word ends under it.
proof fn lemma_ordered_widen(st: SpiScan, last: u64, t: u64, ws: nat)
    requires
        scan_ordered(st, last, ws),
        last <= t,
    ensures
        scan_ordered(st, t, ws),
{
}

/// One sampling edge at or after every earlier one keeps a scan ordered.
#[verifier::rlimit(30)]
proof fn lemma_step_ordered(
    s: SpiSettings,
    data: Seq<(u64, Bit)>,
    cs: Option<Seq<(u64, Bit)>>,
    ws: nat,
    st: SpiScan,
    t: u64,
)
    requires
        scan_ordered(st, t, ws),
        ws >= 1,
    ensures
        scan_ordered(spi_step(s, data, cs, ws, st, t), t, ws),
{
    let sel = selected_spec(s, cs, t);
    let cut = st.was_selected && !sel && st.pending.len() > 0;
    let cut_word = WordSpec {
        start: st.word_start,
        end: t,
        text: partial_text(st.pending.len(), ws),
        kind: WordKind::Error,
    };
    let words = if cut {
        st.words.push(cut_word)
    } else {
        st.words
    };
    if cut {
        lemma_push_ordered(st.words, cut_word, t);
    }
    let pending: Seq<Option<Bit>> = if cut {
        Seq::empty()
    } else {
        st.pending
    };
    if sel {
        let start = if pending.len() == 0 {
            t
        } else {
            st.word_start
        };
        let bits = pending.push(value_at_spec(data, t));
        if bits.len() == ws {
            let w = complete_word(s, start, t, bits);
            assert(w.start == start && w.end == t) by {
                reveal(complete_word);
            }
            lemma_push_ordered(words, w, t);
        }
    }
}

/// A scan over sorted sampling edges is ordered up to its last edge, and
/// leaves a word in progress only after at least one edge.
proof fn lemma_scan_ordered(
    s: SpiSettings,
    data: Seq<(u64, Bit)>,
    cs: Option<Seq<(u64, Bit)>>,
    ws: nat,
    samples: Seq<u64>,
)
    requires
        times_sorted(samples),
        ws >= 1,
    ensures
        scan_ordered(spi_scan(s, data, cs, ws, samples), samples.last(), ws),
        spi_scan(s, data, cs, ws, samples).pending.len() > 0 ==> samples.len() > 0,
    decreases samples.len(),
{
    if samples.len() > 0 {
        let prev_samples = samples.drop_last();
        assert(times_sorted(prev_samples));
        lemma_scan_ordered(s, data, cs, ws, prev_samples);
        let t = samples.last();
        let st = spi_scan(s, data, cs, ws, prev_samples);
        if prev_samples.len() > 0 {
            assert(prev_samples.last() == samples[samples.len() - 2]);
            lemma_ordered_widen(st, prev_samples.last(), t, ws);
        } else {
            assert(scan_ordered(st, t, ws));
        }
        lemma_step_ordered(s, data, cs, ws, st, t);
    }
}

/// Over sorted sampling edges the words of a data line read as a contiguous
/// run of blocks: each starts no later than it ends, and each ends where the
/// next starts.
pub proof fn law_spi_words_contiguous(
    s: SpiSettings,
    data: Seq<(u64, Bit)>,
    cs: Option<Seq<(u64, Bit)>>,
    ws: nat,
    samples: Seq<u64>,
)
    requires
        times_sorted(samples),
        ws >= 1,
    ensures
        ({
            let w = spi_words(s, data, cs, ws, samples);
            &&& forall|i: int| 0 <= i < w.len() ==> (#[trigger] w[i]).start <= w[i].end
            &&& forall|i: int| 0 <= i && i + 1 < w.len() ==> (#[trigger] w[i]).end == w[i + 1].start
        }),
{
    lemma_scan_ordered(s, data, cs, ws, samples);
    let st = spi_scan(s, data, cs, ws, samples);
    let raw = if st.pending.len() > 0 {
        st.words.push(
            WordSpec {
                start: st.word_start,
                end: samples.last(),
                text: partial_text(st.pending.len(), ws),
                kind: WordKind::Error,
            },
        )
    } else {
        st.words
    };
    if st.pending.len() > 0 {
        lemma_push_ordered(
            st.words,
            WordSpec {
                start: st.word_start,
                end: samples.last(),
                text: partial_text(st.pending.len(), ws),
                kind: WordKind::Error,
            },
            samples.last(),
        );
    }
    super::lemma_stretch_contiguous(raw);
}

/// The decoded rows of sorted lanes are contiguous runs of blocks.
pub proof fn law_spi_rows_contiguous(s: SpiSettings, lanes: Seq<Option<BitLane>>, data_idx: int)
    requires
        lanes_sorted(lanes),
    ensures
        ({
            let w = spi_lane_words(s, lanes, data_idx);
            &&& forall|i: int| 0 <= i < w.len() ==> (#[trigger] w[i]).start <= w[i].end
            &&& forall|i: int| 0 <= i && i + 1 < w.len() ==> (#[trigger] w[i]).end == w[i + 1].start
        }),
{
    if let (Some(sclk), Some(data)) = (lane_of(lanes, SCLK as int), lane_of(lanes, data_idx)) {
        assert(lanes[SCLK as int] is Some);
        super::lemma_edges_sorted(sclk, sampling_level_spec(s));
        law_spi_words_contiguous(
            s,
            data,
            lane_of(lanes, CS as int),
            clamped_word_size(s),
            edges_to_spec(sclk, sampling_level_spec(s)),
        );
    }
}

/// Without a chip select line every sampling edge contributes a bit: `n`
/// edges make `n / ws` complete words and, if bits are left over, one
/// partial word.
pub proof fn law_spi_without_cs_uses_every_edge(s: SpiSettings, data: Seq<(u64, Bit)>, ws: nat, samples: Seq<u64>)
    requires
        ws >= 1,
    ensures
        spi_words(s, data, None, ws, samples).len() == samples.len() / ws + (if samples.len() % ws == 0 {
            0int
        } else {
            1int
        }),
{
    lemma_scan_counts(s, data, ws, samples);
    let st = spi_scan(s, data, None, ws, samples);
    if st.pending.len() > 0 {
        assert(samples.len() > 0);
    }
}

/// The data line sampled at `len` consecutive edges from edge `from`.
pub open spec fn sampled(data: Seq<(u64, Bit)>, samples: Seq<u64>, from: int, len: nat) -> Seq<Option<Bit>> {
    Seq::new(len, |k: int| value_at_spec(data, samples[from + k]))
}

/// Without chip select, the scan has cut every `ws` edges into a word: word
/// `i` spans edges `i*ws` to `i*ws + ws - 1` and holds what they sampled, and
/// the edges after the last full word are the word in progress.
pub open spec fn scan_in_words(s: SpiSettings, data: Seq<(u64, Bit)>, ws: nat, samples: Seq<u64>, st: SpiScan) -> bool {
    let n = samples.len();
    let q: int = (n / ws) as int;
    let r: nat = n % ws;
    &&& st.words.len() == q
    &&& forall|i: int|
        0 <= i < q ==> #[trigger] st.words[i] == complete_word(
            s,
            samples[i * ws],
            samples[i * ws + ws - 1],
            sampled(data, samples, i * ws, ws),
        )
    &&& st.pending == sampled(data, samples, q * ws, r)
    &&& r > 0 ==> st.word_start == samples[q * ws]
}

proof fn lemma_div_mod_step(n: nat, ws: nat)
    requires
        ws >= 1,
    ensures
        n == (n / ws) * ws + n % ws,
        n % ws < ws,
        n % ws + 1 == ws ==> (n + 1) / ws == n / ws + 1 && (n + 1) % ws == 0,
        n % ws + 1 < ws ==> (n + 1) / ws == n / ws && (n + 1) % ws == n % ws + 1,
        forall|i: int| 0 <= i < n / ws ==> #[trigger] (i * ws) + ws <= (n / ws) * ws,
{
    assert(n == (n / ws) * ws + n % ws && n % ws < ws) by (nonlinear_arith)
        requires
            ws >= 1,
    ;
    if n % ws + 1 == ws {
        assert((n + 1) / ws == n / ws + 1 && (n + 1) % ws == 0) by (nonlinear_arith)
            requires
                n % ws + 1 == ws,
                ws >= 1,
        ;
    } else {
        assert((n + 1) / ws == n / ws && (n + 1) % ws == n % ws + 1) by (nonlinear_arith)
            requires
                n % ws + 1 != ws,
                n % ws < ws,
                ws >= 1,
        ;
    }
    assert forall|i: int| 0 <= i < n / ws implies #[trigger] (i * ws) + ws <= (n / ws) * ws by {
        let q = n / ws;
        assert(i * ws + ws <= q * ws) by (nonlinear_arith)
            requires
                0 <= i < q,
                ws >= 1,
        ;
    }
}

#[verifier::spinoff_prover]
#[verifier::rlimit(50)]
proof fn lemma_scan_in_words(s: SpiSettings, data: Seq<(u64, Bit)>, ws: nat, samples: Seq<u64>)
    requires
        ws >= 1,
    ensures
        scan_in_words(s, data, ws, samples, spi_scan(s, data, None, ws, samples)),
    decreases samples.len(),
{
    let n = samples.len();
    if n == 0 {
        assert(0nat / ws == 0 && 0nat % ws == 0) by (nonlinear_arith)
            requires
                ws >= 1,
        ;
        assert(sampled(data, samples, 0, 0) =~= Seq::<Option<Bit>>::empty());
    } else {
        let d = samples.drop_last();
        let m: nat = (n - 1) as nat;
        lemma_scan_in_words(s, data, ws, d);
        lemma_div_mod_step(m, ws);
        let st = spi_scan(s, data, None, ws, d);
        let t = samples.last();
        let nx = spi_scan(s, data, None, ws, samples);
        assert(nx == spi_step(s, data, None, ws, st, t));
        assert(selected_spec(s, None, t));
        let q: int = (m / ws) as int;
        let r: nat = m % ws;
        assert(t == samples[q * ws + r]);
        let bits = st.pending.push(value_at_spec(data, t));
        assert(bits =~= sampled(data, samples, q * ws, r + 1)) by {
            assert forall|k: int| 0 <= k < r implies #[trigger] st.pending[k] == value_at_spec(
                data,
                samples[q * ws + k],
            ) by {
                assert(d[q * ws + k] == samples[q * ws + k]);
            }
        }
        let start = if st.pending.len() == 0 {
            t
        } else {
            st.word_start
        };
        if r > 0 {
            assert(d[q * ws] == samples[q * ws]);
        }
        assert(start == samples[q * ws]);
        assert forall|i: int| 0 <= i < q implies #[trigger] st.words[i] == complete_word(
            s,
            samples[i * ws],
            samples[i * ws + ws - 1],
            sampled(data, samples, i * ws, ws),
        ) by {
            assert(i * ws + ws <= q * ws);
            assert(d[i * ws] == samples[i * ws]);
            assert(d[i * ws + ws - 1] == samples[i * ws + ws - 1]);
            assert(sampled(data, d, i * ws, ws) =~= sampled(data, samples, i * ws, ws)) by {
                assert forall|k: int| 0 <= k < ws implies #[trigger] sampled(data, d, i * ws, ws)[k] == sampled(
                    data,
                    samples,
                    i * ws,
                    ws,
                )[k] by {
                    assert(d[i * ws + k] == samples[i * ws + k]);
                }
            }
        }
        if r + 1 == ws {
            let w = complete_word(s, start, t, bits);
            assert(nx.words == st.words.push(w));
            assert(q * ws + ws - 1 == m);
            assert((q + 1) * ws == q * ws + ws) by (nonlinear_arith);
            assert(sampled(data, samples, (q + 1) * ws, 0) =~= Seq::<Option<Bit>>::empty());
            assert forall|i: int| 0 <= i < q + 1 implies #[trigger] nx.words[i] == complete_word(
                s,
                samples[i * ws],
                samples[i * ws + ws - 1],
                sampled(data, samples, i * ws, ws),
            ) by {
                if i < q {
                    assert(nx.words[i] == st.words[i]);
                }
            }
        } else {
            assert(nx.words == st.words);
            assert(nx.pending == bits);
        }
    }
}

proof fn lemma_scan_counts(s: SpiSettings, data: Seq<(u64, Bit)>, ws: nat, samples: Seq<u64>)
    requires
        ws >= 1,
    ensures
        spi_scan(s, data, None, ws, samples).words.len() == samples.len() / ws,
        spi_scan(s, data, None, ws, samples).pending.len() == samples.len() % ws,
{
    lemma_scan_in_words(s, data, ws, samples);
}

/// Without chip select the words follow the clock edges `ws` at a time:
/// word `i` starts at edge `i*ws` and, while complete, holds what edges
/// `i*ws` to `i*ws + ws - 1` sampled; edges left over at the end make one
/// more word, an error counting them.
pub proof fn law_spi_without_cs_words(s: SpiSettings, data: Seq<(u64, Bit)>, ws: nat, samples: Seq<u64>)
    requires
        ws >= 1,
    ensures
        ({
            let w = spi_words(s, data, None, ws, samples);
            let n = samples.len();
            let q: int = (n / ws) as int;
            &&& forall|i: int| 0 <= i < w.len() ==> (#[trigger] w[i]).start == samples[i * ws]
            &&& forall|i: int|
                0 <= i < q ==> (#[trigger] w[i]).text == complete_word(
                    s,
                    samples[i * ws],
                    samples[i * ws + ws - 1],
                    sampled(data, samples, i * ws, ws),
                ).text && w[i].kind == complete_word(
                    s,
                    samples[i * ws],
                    samples[i * ws + ws - 1],
                    sampled(data, samples, i * ws, ws),
                ).kind
            &&& n % ws > 0 ==> w.len() == q + 1 && w[q].text == partial_text(n % ws, ws) && w[q].kind
                == WordKind::Error
            &&& n % ws == 0 ==> w.len() == q
        }),
{
    reveal(complete_word);
    lemma_scan_in_words(s, data, ws, samples);
    let n = samples.len();
    lemma_div_mod_step(n, ws);
    let st = spi_scan(s, data, None, ws, samples);
    let q: int = (n / ws) as int;
    assert forall|i: int| 0 <= i < q implies (#[trigger] st.words[i]).start == samples[i * ws] by {
        assert(st.words[i] == complete_word(
            s,
            samples[i * ws],
            samples[i * ws + ws - 1],
            sampled(data, samples, i * ws, ws),
        ));
    }
}

/// The edge a data line is sampled on: rising SCLK edges in modes 0 and 3
/// (CPOL equal to CPHA), falling edges in modes 1 and 2. Whatever the mode,
/// a row holds the words read from the data line at those edges.
pub proof fn law_spi_sampling_edge(s: SpiSettings, lanes: Seq<Option<BitLane>>, data_idx: int)
    ensures
        spi_lane_words(s, lanes, data_idx) == match (lane_of(lanes, SCLK as int), lane_of(lanes, data_idx)) {
            (Some(sclk), Some(data)) => spi_words(
                s,
                data,
                lane_of(lanes, CS as int),
                clamped_word_size(s),
                edges_to_spec(sclk, if s.cpol == s.cpha { Bit::One } else { Bit::Zero }),
            ),
            _ => Seq::empty(),
        },
        (mode_spec(s) == 0 || mode_spec(s) == 3) <==> s.cpol == s.cpha,
{
}

/// While chip select never selects the slave on a sampling edge, nothing is
/// decoded.
pub proof fn law_spi_chip_select_gates(
    s: SpiSettings,
    data: Seq<(u64, Bit)>,
    cs: Seq<(u64, Bit)>,
    ws: nat,
    samples: Seq<u64>,
)
    requires
        forall|i: int| 0 <= i < samples.len() ==> !cs_selects(s, cs, #[trigger] samples[i]),
    ensures
        spi_words(s, data, Some(cs), ws, samples).len() == 0,
{
    lemma_scan_deselected(s, data, cs, ws, samples);
}

proof fn lemma_scan_deselected(
    s: SpiSettings,
    data: Seq<(u64, Bit)>,
    cs: Seq<(u64, Bit)>,
    ws: nat,
    samples: Seq<u64>,
)
    requires
        forall|i: int| 0 <= i < samples.len() ==> !cs_selects(s, cs, #[trigger] samples[i]),
    ensures
        spi_scan(s, data, Some(cs), ws, samples).words.len() == 0,
        spi_scan(s, data, Some(cs), ws, samples).pending.len() == 0,
        !spi_scan(s, data, Some(cs), ws, samples).was_selected,
    decreases samples.len(),
{
    if samples.len() > 0 {
        let d = samples.drop_last();
        assert forall|i: int| 0 <= i < d.len() implies !cs_selects(s, cs, #[trigger] d[i]) by {
            assert(d[i] == samples[i]);
        }
        lemma_scan_deselected(s, data, cs, ws, d);
        assert(!cs_selects(s, cs, samples[samples.len() - 1]));
    }
}

impl SpiSettings {
    /// SPI mode number (0-3), the conventional way to name a CPOL/CPHA pair.
    #[must_use]
    pub fn mode(&self) -> (r: u8)
        ensures
            r == mode_spec(*self),
    {
        let hi: u8 = if self.cpol { 2 } else { 0 };
        let lo: u8 = if self.cpha { 1 } else { 0 };
        hi + lo
    }

    /// Sets CPOL from bit 1 of `mode` and CPHA from bit 0, leaving the rest.
    pub fn set_mode(&mut self, mode: u8)
        ensures
            final(self).cpol == ((mode / 2) % 2 == 1),
            final(self).cpha == (mode % 2 == 1),
            final(self).bit_order == old(self).bit_order,
            final(self).word_size == old(self).word_size,
            final(self).format == old(self).format,
            final(self).cs_active_low == old(self).cs_active_low,
    {
        assert((mode & 2u8 != 0) == ((mode / 2) % 2 == 1)) by (bit_vector);
        assert((mode & 1u8 != 0) == (mode % 2 == 1)) by (bit_vector);
        self.cpol = mode & 0b10 != 0;
        self.cpha = mode & 0b01 != 0;
    }

    #[must_use]
    pub fn lane_names(&self) -> (r: Vec<String>)
        ensures
            r@.len() == 2,
            r@[0]@ == "MOSI"@,
            r@[1]@ == "MISO"@,
    {
        let mut r: Vec<String> = Vec::new();
        r.push("MOSI".to_string());
        r.push("MISO".to_string());
        r
    }

    /// The SCLK level whose arrival latches a bit.
    ///
    /// The leading edge of a clock pulse goes away from the idle level, so with
    /// CPOL=0 it rises and with CPOL=1 it falls. CPHA=0 samples that leading
    /// edge; CPHA=1 samples the trailing one.
    fn sampling_level(&self) -> (r: Bit)
        ensures
            r == sampling_level_spec(*self),
    {
        let leading_is_rise = !self.cpol;
        let sample_on_leading = !self.cpha;
        if leading_is_rise == sample_on_leading {
            Bit::One
        } else {
            Bit::Zero
        }
    }

    /// Decode `lanes`, indexed by the `SCLK`/`MOSI`/`MISO`/`CS` constants.
    ///
    /// Produces the MOSI row and the MISO row, in that order. A missing clock
    /// or a missing data line leaves its row empty.
    #[must_use]
    pub fn decode(&self, lanes: &[Option<BitLane>]) -> (out: Vec<DecodedLane>)
        ensures
            spi_decoded(*self, lanes@, out@),
    {
        let ghost ls = lanes@;
        let mosi_name = "MOSI".to_string();
        let miso_name = "MISO".to_string();
        let sclk: &BitLane = if lanes.len() > SCLK {
            match &lanes[SCLK] {
                Some(l) => l,
                None => {
                    let mut out: Vec<DecodedLane> = Vec::new();
                    out.push(super::empty_lane(mosi_name));
                    out.push(super::empty_lane(miso_name));
                    return out;
                },
            }
        } else {
            let mut out: Vec<DecodedLane> = Vec::new();
            out.push(super::empty_lane(mosi_name));
            out.push(super::empty_lane(miso_name));
            return out;
        };
        assert(lane_of(ls, SCLK as int) == Some(sclk@));
        let cs: Option<&BitLane> = if lanes.len() > CS {
            match &lanes[CS] {
                Some(l) => Some(l),
                None => None,
            }
        } else {
            None
        };
        let ghost csv: Option<Seq<(u64, Bit)>> = match cs {
            Some(l) => Some(l@),
            None => None,
        };
        assert(csv == lane_of(ls, CS as int));
        let word_size: u32 = if self.word_size < 1 {
            1
        } else if self.word_size > 64 {
            64
        } else {
            self.word_size
        };
        let sample_times = sclk.edges_to(self.sampling_level());

        let mut out: Vec<DecodedLane> = Vec::new();
        let mosi_words = if lanes.len() > MOSI {
            match &lanes[MOSI] {
                Some(data) => {
                    assert(lane_of(ls, MOSI as int) == Some(data@));
                    self.decode_one(data, cs, &sample_times, word_size)
                },
                None => Vec::new(),
            }
        } else {
            Vec::new()
        };
        out.push(DecodedLane { name: mosi_name, words: mosi_words });
        let miso_words = if lanes.len() > MISO {
            match &lanes[MISO] {
                Some(data) => {
                    assert(lane_of(ls, MISO as int) == Some(data@));
                    self.decode_one(data, cs, &sample_times, word_size)
                },
                None => Vec::new(),
            }
        } else {
            Vec::new()
        };
        out.push(DecodedLane { name: miso_name, words: miso_words });
        proof {
            if lanes_sorted(ls) {
                assert(ls[SCLK as int] is Some);
                if ls.len() > CS && ls[CS as int] is Some {
                    assert(time_sorted(ls[CS as int]->0@));
                }
                if ls.len() > MOSI && ls[MOSI as int] is Some {
                    assert(time_sorted(ls[MOSI as int]->0@));
                }
                if ls.len() > MISO && ls[MISO as int] is Some {
                    assert(time_sorted(ls[MISO as int]->0@));
                }
            }
            assert(words_view(Seq::<DecodedWord>::empty()) =~= Seq::<WordSpec>::empty());
        }
        out
    }

    /// The words of one data line sampled at `sample_times`.
    fn decode_one(
        &self,
        data: &BitLane,
        cs: Option<&BitLane>,
        sample_times: &Vec<u64>,
        word_size: u32,
    ) -> (words: Vec<DecodedWord>)
        requires
            1 <= word_size <= 64,
        ensures
            ({
                let csv = match cs {
                    Some(l) => Some(l@),
                    None => None,
                };
                (time_sorted(data@) && (cs matches Some(l) ==> time_sorted(l@))) ==> words_view(words@)
                    == spi_words(*self, data@, csv, word_size as nat, sample_times@)
            }),
            sample_times@.len() == 0 ==> words@.len() == 0,
    {
        let ghost csv: Option<Seq<(u64, Bit)>> = match cs {
            Some(l) => Some(l@),
            None => None,
        };
        let ghost ok = time_sorted(data@) && (cs matches Some(l) ==> time_sorted(l@));
        let ghost samples = sample_times@;
        let ghost ws = word_size as nat;
        let mut words: Vec<DecodedWord> = Vec::new();

        // Bits accumulated so far for the word in progress.
        let mut acc: u64 = 0;
        let mut count: u32 = 0;
        let mut word_start: u64 = 0;
        let mut invalid = false;
        // Tracks CS so that a deassert mid-word can be reported as an error
        // rather than silently merged into the next transfer.
        let mut was_selected = false;

        let mut i: usize = 0;
        proof {
            lemma_pow2_pos(0);
            assert(samples.take(0) =~= Seq::<u64>::empty());
            assert(words_view(words@) =~= Seq::<WordSpec>::empty());
            assert(all_valid(Seq::<Option<Bit>>::empty()));
            assert(sample_bools(Seq::<Option<Bit>>::empty()) =~= Seq::<bool>::empty());
        }
        while i < sample_times.len()
            invariant
                1 <= word_size <= 64,
                ws == word_size as nat,
                samples == sample_times@,
                i <= samples.len(),
                count < word_size,
                !invalid ==> acc < pow2(count as nat),
                ok == (time_sorted(data@) && (cs matches Some(l) ==> time_sorted(l@))),
                csv == (match cs {
                    Some(l) => Some(l@),
                    None => None,
                }),
                ok ==> scan_matches(
                    spi_scan(*self, data@, csv, ws, samples.take(i as int)),
                    words@,
                    count,
                    word_start,
                    was_selected,
                    invalid,
                    acc,
                    self.bit_order,
                ),
                i == 0 ==> count == 0 && words@.len() == 0,
            decreases samples.len() - i,
        {
            let t = sample_times[i];
            let ghost prev = spi_scan(*self, data@, csv, ws, samples.take(i as int));
            proof {
                assert(samples.take(i + 1).drop_last() =~= samples.take(i as int));
                assert(samples.take(i + 1).last() == t);
            }
            let selected = match cs {
                None => true,
                Some(c) => self.is_selected(c, t),
            };
            let ghost cut = was_selected && !selected && count > 0;
            if was_selected && !selected && count > 0 {
                let w = DecodedWord {
                    start: word_start,
                    end: t,
                    text: partial_word_text(count, word_size),
                    kind: WordKind::Error,
                };
                let ghost before = words@;
                words.push(w);
                proof {
                    assert(words_view(words@) =~= words_view(before).push(w@));
                }
                acc = 0;
                count = 0;
                invalid = false;
                proof {
                    lemma_pow2_pos(0);
                    assert(all_valid(Seq::<Option<Bit>>::empty()));
                    assert(sample_bools(Seq::<Option<Bit>>::empty()) =~= Seq::<bool>::empty());
                }
            }
            was_selected = selected;

            if !selected {
                i = i + 1;
                continue;
            }
            let bit = data.value_at(t);
            if count == 0 {
                word_start = t;
            }
            let ghost pend_before: Seq<Option<Bit>> = if cut {
                Seq::empty()
            } else {
                prev.pending
            };
            let ghost pend_after = pend_before.push(bit);
            match bit {
                Some(Bit::Zero) | Some(Bit::One) => {
                    let b = bit == Some(Bit::One);
                    proof {
                        if ok && !invalid {
                            assert(sample_bools(pend_after) =~= sample_bools(pend_before).push(b));
                            lemma_word_value_bound(sample_bools(pend_after), self.bit_order);
                        }
                    }
                    let new_acc = if invalid {
                        acc
                    } else {
                        push_bit(acc, count, b, self.bit_order)
                    };
                    proof {
                        if ok && !invalid {
                            let xs = sample_bools(pend_before);
                            assert(xs.push(b).drop_last() =~= xs);
                            assert(xs.push(b).last() == b);
                            assert(new_acc == word_value(sample_bools(pend_after), self.bit_order));
                        }
                    }
                    acc = new_acc;
                },
                // An x or z on the data line makes the whole word untrustworthy,
                // but the bit still occupies its slot so the framing survives.
                _ => invalid = true,
            }
            count = count + 1;
            proof {
                if ok {
                    assert(pend_after.len() == count);
                    if !invalid {
                        assert forall|k: int| 0 <= k < pend_after.len() implies sample_valid(
                            #[trigger] pend_after[k],
                        ) by {
                            if k < pend_before.len() {
                                assert(pend_after[k] == pend_before[k]);
                            }
                        }
                        assert(sample_bools(pend_after).len() == count);
                    } else {
                        if sample_valid(bit) {
                            let k = choose|k: int| 0 <= k < pend_before.len() && !sample_valid(pend_before[k]);
                            assert(pend_after[k] == pend_before[k]);
                        } else {
                            assert(pend_after[pend_after.len() - 1] == bit);
                        }
                    }
                }
            }

            let ghost start_spec: u64 = if pend_before.len() == 0 { t } else { prev.word_start };
            proof {
                if ok {
                    assert(bit == value_at_spec(data@, t));
                    assert(start_spec == word_start);
                    assert(selected == selected_spec(*self, csv, t));
                }
            }
            if count == word_size {
                let text = if invalid {
                    "x".to_string()
                } else {
                    self.format.format(acc, word_size)
                };
                let w = DecodedWord {
                    start: word_start,
                    end: t,
                    text,
                    kind: if invalid {
                        WordKind::Error
                    } else {
                        WordKind::Data
                    },
                };
                let ghost before = words@;
                words.push(w);
                proof {
                    reveal(complete_word);
                    assert(words_view(words@) =~= words_view(before).push(w@));
                }
                acc = 0;
                count = 0;
                invalid = false;
                proof {
                    lemma_pow2_pos(0);
                    assert(all_valid(Seq::<Option<Bit>>::empty()));
                    assert(sample_bools(Seq::<Option<Bit>>::empty()) =~= Seq::<bool>::empty());
                }
            }
            i = i + 1;
        }
        proof {
            assert(samples.take(samples.len() as int) =~= samples);
        }

        // A word left in progress when the trace ends is incomplete, and saying
        // so is more useful than dropping it or showing a half-shifted value.
        if count > 0 {
            let end = sample_times[sample_times.len() - 1];
            let w = DecodedWord {
                start: word_start,
                end,
                text: partial_word_text(count, word_size),
                kind: WordKind::Error,
            };
            let ghost before = words@;
            words.push(w);
            proof {
                assert(words_view(words@) =~= words_view(before).push(w@));
            }
        }

        // Each word is drawn from its first sampling edge to its last, which
        // leaves a gap before the next word. Stretch each word to meet the next
        // so the row reads as a contiguous sequence of blocks.
        stretch_in_place(&mut words);
        words
    }

    fn is_selected(&self, cs: &BitLane, t: u64) -> (r: bool)
        ensures
            time_sorted(cs@) ==> r == cs_selects(*self, cs@, t),
    {
        match cs.value_at(t) {
            Some(Bit::One) => !self.cs_active_low,
            Some(Bit::Zero) => self.cs_active_low,
            // Before CS has any value, or while it is x/z, assume not selected
            // rather than decoding noise into confident-looking words.
            _ => false,
        }
    }
}

} // verus!
