//! I2C protocol decoder.
//!
//! Unlike SPI and UART, the output is a token stream rather than a flat run of
//! words: a transaction reads `S`, `50 W`, `A`, `00`, `A`, `2A`, `A`, `P`. The
//! framing is the useful part of I2C, so it is shown rather than hidden.

use vstd::prelude::*;

use super::spi::{lane_of, lanes_sorted};
use vstd::arithmetic::power2::{lemma2_to64, lemma_pow2_pos, pow2};

use super::{
    lemma_word_value_bound, push_bit, word_value, BitOrder, change_times, count_times_at_or_before, edges_to_spec, first_greater, format_spec,
    lemma_edges_are_changes, lemma_edges_sorted, lemma_first_greater_split, msb_value,
    time_sorted, times_sorted, value_at_spec, words_view, Bit, BitLane, DecodedLane, DecodedWord,
    WordFormat, WordKind, WordSpec,
};
use crate::text::{decimal, decimal_text, digits, lemma_digits_len};

verus! {

broadcast use vstd::string::to_string_from_display_ensures_for_str;

/// Role indices. Positional in saved state, so only ever append.
pub const SCL: usize = 0;

pub const SDA: usize = 1;

#[derive(Debug, Clone, Copy, PartialEq, Eq, Structural)]
pub struct I2cSettings {
    /// Show the 7-bit address with its read/write bit split out, rather than
    /// showing the raw 8-bit frame that went over the wire.
    pub split_address: bool,
    pub format: WordFormat,
}

impl Default for I2cSettings {
    fn default() -> (r: Self)
        ensures
            r == default_i2c(),
    {
        Self { split_address: true, format: WordFormat::Hex }
    }
}

/// What happened at a given time on the bus.
#[derive(Debug, Clone, Copy, PartialEq, Eq, Structural)]
pub enum Event {
    Start,
    Stop,
    /// A rising SCL edge, which latches whatever SDA holds.
    Sample(Bit),
}

// ---------------------------------------------------------------------------
// Finding the bus events.

/// START and STOP are SDA moving while SCL is high, which is the one time SDA
/// is otherwise required to be stable: falling is a START, rising a STOP.
pub open spec fn condition_events(scl: Seq<(u64, Bit)>, sda: Seq<(u64, Bit)>) -> Seq<(u64, Event)>
    decreases sda.len(),
{
    if sda.len() < 2 {
        Seq::empty()
    } else {
        let rest = condition_events(scl, sda.drop_last());
        let (t, v) = sda.last();
        if sda[sda.len() - 2].1 != v && value_at_spec(scl, t) == Some(Bit::One) {
            match v {
                Bit::Zero => rest.push((t, Event::Start)),
                Bit::One => rest.push((t, Event::Stop)),
                Bit::Invalid => rest,
            }
        } else {
            rest
        }
    }
}

/// The first falling SCL edge after `t`, or the end of time.
pub open spec fn next_fall(scl: Seq<(u64, Bit)>, t: u64) -> u64 {
    match first_greater(edges_to_spec(scl, Bit::Zero), t) {
        Some(f) => f,
        None => u64::MAX,
    }
}

/// SDA moves while SCL is high after the rising edge at `t`: that pulse
/// carries a START or STOP rather than a bit.
pub open spec fn sda_moves(scl: Seq<(u64, Bit)>, sda: Seq<(u64, Bit)>, t: u64) -> bool {
    match first_greater(change_times(sda), t) {
        Some(st) => st < next_fall(scl, t),
        None => false,
    }
}

/// A data bit latched by the rising edge at `t`: what SDA holds then.
pub open spec fn latched(sda: Seq<(u64, Bit)>, t: u64) -> Bit {
    match value_at_spec(sda, t) {
        Some(b) => b,
        None => Bit::Invalid,
    }
}

/// One sample event for each rising edge in `rises` during which SDA stays put.
pub open spec fn sample_events(
    scl: Seq<(u64, Bit)>,
    sda: Seq<(u64, Bit)>,
    rises: Seq<u64>,
) -> Seq<(u64, Event)>
    decreases rises.len(),
{
    if rises.len() == 0 {
        Seq::empty()
    } else {
        let rest = sample_events(scl, sda, rises.drop_last());
        let t = rises.last();
        if sda_moves(scl, sda, t) {
            rest
        } else {
            rest.push((t, Event::Sample(latched(sda, t))))
        }
    }
}

/// What `first_greater` finds is the first element after `t`, and when it
/// finds nothing no element lies after `t`.
proof fn lemma_first_greater_props(s: Seq<u64>, t: u64)
    ensures
        first_greater(s, t) matches Some(x) ==> exists|k: int|
            0 <= k < s.len() && s[k] == x && x > t && forall|i: int| 0 <= i < k ==> #[trigger] s[i] <= t,
        first_greater(s, t) is None ==> forall|i: int| 0 <= i < s.len() ==> #[trigger] s[i] <= t,
    decreases s.len(),
{
    if s.len() > 0 {
        let r = s.drop_first();
        lemma_first_greater_props(r, t);
        if s[0] > t {
            assert(s[0] == s[0]);
        } else {
            if let Some(x) = first_greater(r, t) {
                let k = choose|k: int|
                    0 <= k < r.len() && r[k] == x && x > t && forall|i: int| 0 <= i < k ==> #[trigger] r[i] <= t;
                assert(s[k + 1] == x);
                assert forall|i: int| 0 <= i < k + 1 implies #[trigger] s[i] <= t by {
                    if i > 0 {
                        assert(s[i] == r[i - 1]);
                    }
                }
            } else {
                assert forall|i: int| 0 <= i < s.len() implies #[trigger] s[i] <= t by {
                    if i > 0 {
                        assert(s[i] == r[i - 1]);
                    }
                }
            }
        }
    }
}

/// A rising SCL edge at `t` carries a START or STOP rather than a bit exactly
/// when SDA changes strictly after `t` and strictly before SCL next falls; a
/// change at the very moment SCL falls leaves the bit in place.
pub proof fn law_sda_moves_while_scl_high(scl: Seq<(u64, Bit)>, sda: Seq<(u64, Bit)>, t: u64)
    requires
        time_sorted(sda),
    ensures
        sda_moves(scl, sda, t) <==> exists|j: int|
            0 <= j < sda.len() && t < (#[trigger] sda[j]).0 && sda[j].0 < next_fall(scl, t),
{
    let ct = change_times(sda);
    lemma_first_greater_props(ct, t);
    let nf = next_fall(scl, t);
    if let Some(x) = first_greater(ct, t) {
        let k = choose|k: int| 0 <= k < ct.len() && ct[k] == x && x > t && forall|i: int| 0 <= i < k ==> #[trigger] ct[i] <= t;
        assert(sda[k].0 == x);
        if exists|j: int| 0 <= j < sda.len() && t < (#[trigger] sda[j]).0 && sda[j].0 < nf {
            let j = choose|j: int| 0 <= j < sda.len() && t < (#[trigger] sda[j]).0 && sda[j].0 < nf;
            if j < k {
                assert(ct[j] == sda[j].0);
            } else {
                assert(sda[k].0 <= sda[j].0);
            }
        }
    } else {
        if exists|j: int| 0 <= j < sda.len() && t < (#[trigger] sda[j]).0 && sda[j].0 < nf {
            let j = choose|j: int| 0 <= j < sda.len() && t < (#[trigger] sda[j]).0 && sda[j].0 < nf;
            assert(ct[j] == sda[j].0);
        }
    }
}

/// A rising edge yields a data sample, holding what SDA reads then, exactly
/// when SDA does not change strictly between it and the next SCL fall.
pub proof fn law_samples_are_quiet_rises(scl: Seq<(u64, Bit)>, sda: Seq<(u64, Bit)>, rises: Seq<u64>)
    requires
        time_sorted(sda),
    ensures
        sample_events(scl, sda, rises) == ({
            let quiet = rises.filter(
                |t: u64| !exists|j: int| 0 <= j < sda.len() && t < (#[trigger] sda[j]).0 && sda[j].0 < next_fall(scl, t),
            );
            quiet.map_values(|t: u64| (t, Event::Sample(latched(sda, t))))
        }),
    decreases rises.len(),
{
    let pred = |t: u64| !exists|j: int| 0 <= j < sda.len() && t < (#[trigger] sda[j]).0 && sda[j].0 < next_fall(scl, t);
    if rises.len() > 0 {
        law_samples_are_quiet_rises(scl, sda, rises.drop_last());
        let t = rises.last();
        law_sda_moves_while_scl_high(scl, sda, t);
        reveal(Seq::filter);
        assert(rises.drop_last().push(t) =~= rises);
        let q0 = rises.drop_last().filter(pred);
        assert(rises.filter(pred) == if pred(t) { q0.push(t) } else { q0 });
        let f = |t: u64| (t, Event::Sample(latched(sda, t)));
        if pred(t) {
            assert(q0.push(t).map_values(f) =~= q0.map_values(f).push(f(t)));
        }
    } else {
        assert(rises.filter(pred) =~= Seq::<u64>::empty()) by {
            reveal(Seq::filter);
        }
        assert(Seq::<u64>::empty().map_values(|t: u64| (t, Event::Sample(latched(sda, t)))) =~= Seq::<(u64, Event)>::empty());
    }
}

/// `e` inserted after every element of `s` whose time is not later than its own.
pub open spec fn insert_by_time(s: Seq<(u64, Event)>, e: (u64, Event)) -> Seq<(u64, Event)>
    decreases s.len(),
{
    if s.len() == 0 {
        seq![e]
    } else if s.last().0 <= e.0 {
        s.push(e)
    } else {
        insert_by_time(s.drop_last(), e).push(s.last())
    }
}

/// `s` sorted by time, keeping events at equal times in their original order.
pub open spec fn sort_by_time(s: Seq<(u64, Event)>) -> Seq<(u64, Event)>
    decreases s.len(),
{
    if s.len() == 0 {
        Seq::empty()
    } else {
        insert_by_time(sort_by_time(s.drop_last()), s.last())
    }
}

/// All bus events in time order: conditions before samples at equal times.
pub open spec fn bus_events(scl: Seq<(u64, Bit)>, sda: Seq<(u64, Bit)>) -> Seq<(u64, Event)> {
    sort_by_time(condition_events(scl, sda) + sample_events(scl, sda, edges_to_spec(scl, Bit::One)))
}

/// The smallest gap between consecutive elements of a sorted sequence.
pub open spec fn min_step(e: Seq<u64>) -> Option<u64>
    decreases e.len(),
{
    if e.len() < 2 {
        None
    } else {
        let d = (e.last() - e[e.len() - 2]) as u64;
        match min_step(e.drop_last()) {
            None => Some(d),
            Some(m) => Some(if m <= d { m } else { d }),
        }
    }
}

/// The clock period: the narrowest spacing of rising SCL edges, 1 without two.
pub open spec fn clock_period_spec(scl: Seq<(u64, Bit)>) -> u64 {
    match min_step(edges_to_spec(scl, Bit::One)) {
        Some(m) => m,
        None => 1,
    }
}

// ---------------------------------------------------------------------------
// Turning events into tokens.

/// The bits of a byte as numbers, most significant first.
pub open spec fn byte_bools(bits: Seq<Bit>) -> Seq<bool> {
    bits.map_values(|b: Bit| b == Bit::One)
}

pub open spec fn byte_unreliable(bits: Seq<Bit>) -> bool {
    exists|i: int| 0 <= i < bits.len() && bits[i] == Bit::Invalid
}

/// Text of a complete byte: `x` if any bit was unreliable, an address with its
/// direction if it is the address frame and the address is shown split, else
/// the byte in the configured format.
pub open spec fn byte_text(s: I2cSettings, bits: Seq<Bit>, expect_address: bool) -> Seq<char> {
    let byte = msb_value(byte_bools(bits));
    if byte_unreliable(bits) {
        "x"@
    } else if expect_address && s.split_address {
        format_spec(s.format, byte / 2, 7) + " "@ + (if byte % 2 == 0 {
            "W"@
        } else {
            "R"@
        })
    } else {
        format_spec(s.format, byte, 8)
    }
}

/// Text of a byte that received only `count` of its bits.
pub open spec fn partial_byte_text(count: nat) -> Seq<char> {
    decimal(count) + " of 8 bits"@
}

/// A token drawn one clock period wide.
pub open spec fn token(start: u64, period: u64, text: Seq<char>, kind: WordKind) -> WordSpec {
    WordSpec { start, end: (start + period) as u64, text, kind }
}

/// The state of the decode after some events: the tokens so far, whether a
/// transaction is open, the bits of the byte in progress (a complete byte
/// stays until its acknowledge), where that byte began, whether it is the
/// address frame, and whether every token end computed so far fits in a `u64`.
pub struct I2cScan {
    pub words: Seq<WordSpec>,
    pub in_transaction: bool,
    pub pending: Seq<Bit>,
    pub byte_start: u64,
    pub expect_address: bool,
    pub fits: bool,
}

pub open spec fn i2c_step(s: I2cSettings, period: u64, st: I2cScan, ev: (u64, Event)) -> I2cScan {
    let time = ev.0;
    match ev.1 {
        // A START inside a transaction is a repeated start, which is legal and
        // keeps the bus held.
        Event::Start => I2cScan {
            words: st.words.push(
                token(
                    time,
                    period,
                    if st.in_transaction {
                        "Sr"@
                    } else {
                        "S"@
                    },
                    WordKind::Data,
                ),
            ),
            in_transaction: true,
            pending: Seq::empty(),
            byte_start: st.byte_start,
            expect_address: true,
            fits: st.fits && time + period <= u64::MAX,
        },
        Event::Stop => {
            let cut = st.pending.len() > 0;
            let words = if cut {
                st.words.push(
                    token(st.byte_start, period, partial_byte_text(st.pending.len()), WordKind::Error),
                )
            } else {
                st.words
            };
            I2cScan {
                words: words.push(token(time, period, "P"@, WordKind::Data)),
                in_transaction: false,
                pending: Seq::empty(),
                byte_start: st.byte_start,
                expect_address: st.expect_address,
                fits: st.fits && (cut ==> st.byte_start + period <= u64::MAX) && time + period
                    <= u64::MAX,
            }
        },
        Event::Sample(bit) => if !st.in_transaction {
            st
        } else if st.pending.len() == 8 {
            // The ninth clock is the acknowledge from the receiver.
            let acked = bit == Bit::Zero;
            I2cScan {
                words: st.words.push(
                    token(
                        time,
                        period,
                        if acked {
                            "A"@
                        } else {
                            "N"@
                        },
                        if acked {
                            WordKind::Data
                        } else {
                            WordKind::Error
                        },
                    ),
                ),
                in_transaction: true,
                pending: Seq::empty(),
                byte_start: st.byte_start,
                expect_address: false,
                fits: st.fits && time + period <= u64::MAX,
            }
        } else {
            let start = if st.pending.len() == 0 {
                time
            } else {
                st.byte_start
            };
            let bits = st.pending.push(bit);
            let words = if bits.len() == 8 {
                st.words.push(
                    WordSpec {
                        start,
                        end: time,
                        text: byte_text(s, bits, st.expect_address),
                        kind: if byte_unreliable(bits) {
                            WordKind::Error
                        } else {
                            WordKind::Data
                        },
                    },
                )
            } else {
                st.words
            };
            I2cScan {
                words,
                in_transaction: true,
                pending: bits,
                byte_start: start,
                expect_address: st.expect_address,
                fits: st.fits,
            }
        },
    }
}

pub open spec fn i2c_scan(s: I2cSettings, period: u64, evs: Seq<(u64, Event)>) -> I2cScan
    decreases evs.len(),
{
    if evs.len() == 0 {
        I2cScan {
            words: Seq::empty(),
            in_transaction: false,
            pending: Seq::empty(),
            byte_start: 0,
            expect_address: false,
            fits: true,
        }
    } else {
        i2c_step(s, period, i2c_scan(s, period, evs.drop_last()), evs.last())
    }
}

/// The tokens of the whole trace before adjacent ones are joined: a byte left
/// in progress at the end is reported as partial.
pub open spec fn i2c_raw(s: I2cSettings, period: u64, evs: Seq<(u64, Event)>) -> I2cScan {
    let st = i2c_scan(s, period, evs);
    if st.pending.len() > 0 {
        I2cScan {
            words: st.words.push(
                token(st.byte_start, period, partial_byte_text(st.pending.len()), WordKind::Error),
            ),
            fits: st.fits && st.byte_start + period <= u64::MAX,
            ..st
        }
    } else {
        st
    }
}

/// Two consecutive tokens within two clock periods of each other are adjacent.
pub open spec fn adjacent(ws: Seq<WordSpec>, i: int, period: u64) -> bool {
    i + 1 < ws.len() && ws[i + 1].start > ws[i].start && ws[i + 1].start - ws[i].start <= 2 * period
}

/// Each token is closed at the next one when they are adjacent, so a byte runs
/// up to its acknowledge, while real idle gaps between transactions stay.
pub open spec fn close_adjacent(ws: Seq<WordSpec>, period: u64) -> Seq<WordSpec> {
    Seq::new(
        ws.len(),
        |i: int|
            if adjacent(ws, i, period) {
                WordSpec { start: ws[i].start, end: ws[i + 1].start, text: ws[i].text, kind: ws[i].kind }
            } else {
                ws[i]
            },
    )
}

/// The decoded bus row of a trace.
pub open spec fn i2c_words(s: I2cSettings, scl: Seq<(u64, Bit)>, sda: Seq<(u64, Bit)>) -> Seq<WordSpec> {
    let p = clock_period_spec(scl);
    close_adjacent(i2c_raw(s, p, bus_events(scl, sda)).words, p)
}

/// Decoding a trace computes no time beyond `u64::MAX`. For sorted lanes this
/// is exactly the decode's own arithmetic; for unsorted ones, whose lookups are
/// unspecified, every transition must leave room for two clock periods.
pub open spec fn i2c_trace_fits(s: I2cSettings, scl: Seq<(u64, Bit)>, sda: Seq<(u64, Bit)>) -> bool {
    let p = clock_period_spec(scl);
    &&& times_sorted(edges_to_spec(scl, Bit::One))
    &&& (time_sorted(scl) && time_sorted(sda)) ==> {
        let raw = i2c_raw(s, p, bus_events(scl, sda));
        &&& raw.fits
        &&& forall|i: int|
            0 <= i && i + 1 < raw.words.len() && #[trigger] raw.words[i].start < raw.words[i + 1].start
                ==> 2 * p <= u64::MAX
    }
    &&& !(time_sorted(scl) && time_sorted(sda)) ==> {
        &&& forall|j: int| 0 <= j < scl.len() ==> #[trigger] scl[j].0 + 2 * p <= u64::MAX
        &&& forall|j: int| 0 <= j < sda.len() ==> #[trigger] sda[j].0 + 2 * p <= u64::MAX
    }
}

/// The bound lanes can be decoded without arithmetic overflow.
pub open spec fn i2c_fits(s: I2cSettings, lanes: Seq<Option<BitLane>>) -> bool {
    match (lane_of(lanes, SCL as int), lane_of(lanes, SDA as int)) {
        (Some(scl), Some(sda)) => i2c_trace_fits(s, scl, sda),
        _ => true,
    }
}

/// What decoding an I2C bus produces: one row of tokens, empty without both
/// lines, and for sorted lines exactly the tokens of the trace.
pub open spec fn i2c_decoded(s: I2cSettings, lanes: Seq<Option<BitLane>>, out: Seq<DecodedLane>) -> bool {
    &&& out.len() == 1
    &&& out[0]@.name == "Bus"@
    &&& (lane_of(lanes, SCL as int) is None || lane_of(lanes, SDA as int) is None) ==> out[0]@.words.len() == 0
    &&& lane_of(lanes, SCL as int) matches Some(scl) ==> (lane_of(lanes, SDA as int) matches Some(sda) ==> (
    time_sorted(scl) && time_sorted(sda) ==> out[0]@.words == i2c_words(s, scl, sda)))
}

/// Address shown split into 7 bits and direction, values in hex.
pub open spec fn default_i2c() -> I2cSettings {
    I2cSettings { split_address: true, format: WordFormat::Hex }
}

/// Some transition of the lane happens at `t`.
pub open spec fn lane_has_time(s: Seq<(u64, Bit)>, t: u64) -> bool {
    exists|j: int| 0 <= j < s.len() && s[j].0 == t
}

/// Inserting where the later elements begin is what `insert_by_time` does.
proof fn lemma_insert_at(s: Seq<(u64, Event)>, e: (u64, Event), k: int)
    requires
        0 <= k <= s.len(),
        forall|m: int| k <= m < s.len() ==> s[m].0 > e.0,
        k == 0 || s[k - 1].0 <= e.0,
    ensures
        insert_by_time(s, e) == s.take(k).push(e) + s.skip(k),
    decreases s.len(),
{
    if s.len() == 0 {
        assert(s.take(k).push(e) + s.skip(k) =~= seq![e]);
    } else if s.last().0 <= e.0 {
        assert(k == s.len());
        assert(s.take(k).push(e) + s.skip(k) =~= s.push(e));
    } else {
        lemma_insert_at(s.drop_last(), e, k);
        let d = s.drop_last();
        assert(d.take(k).push(e) + d.skip(k) + seq![s.last()] =~= s.take(k).push(e) + s.skip(k));
    }
}

/// Events in non-decreasing time order.
pub open spec fn events_sorted(s: Seq<(u64, Event)>) -> bool {
    forall|i: int, j: int| 0 <= i <= j < s.len() ==> s[i].0 <= s[j].0
}

/// Inserting into sorted events keeps them sorted, and adds exactly the one
/// event.
proof fn lemma_insert_sorted(s: Seq<(u64, Event)>, e: (u64, Event))
    requires
        events_sorted(s),
    ensures
        events_sorted(insert_by_time(s, e)),
        insert_by_time(s, e).to_multiset() == s.to_multiset().insert(e),
    decreases s.len(),
{
    broadcast use vstd::seq_lib::group_to_multiset_ensures;

    if s.len() > 0 && s.last().0 > e.0 {
        let d = s.drop_last();
        assert(events_sorted(d));
        lemma_insert_sorted(d, e);
        let r = insert_by_time(d, e);
        assert forall|i: int| 0 <= i < r.len() implies r[i].0 <= s.last().0 by {
            assert(r.to_multiset().count(r[i]) > 0);
            assert(r.contains(r[i]));
            if r[i] != e {
                assert(d.to_multiset().count(r[i]) > 0);
                assert(d.contains(r[i]));
                let j = choose|j: int| 0 <= j < d.len() && d[j] == r[i];
                assert(d[j] == s[j]);
            }
        }
        assert(s.to_multiset() == d.to_multiset().insert(s.last())) by {
            assert(d.push(s.last()) =~= s);
        }
    }
}

/// Sorting the bus events puts them in time order and neither loses nor adds
/// an event.
pub proof fn law_events_sorted(s: Seq<(u64, Event)>)
    ensures
        events_sorted(sort_by_time(s)),
        sort_by_time(s).to_multiset() == s.to_multiset(),
    decreases s.len(),
{
    broadcast use vstd::seq_lib::group_to_multiset_ensures;

    if s.len() > 0 {
        law_events_sorted(s.drop_last());
        lemma_insert_sorted(sort_by_time(s.drop_last()), s.last());
        assert(s.drop_last().push(s.last()) =~= s);
    }
}

/// What each bus event contributes: a START gives `S`, or `Sr` inside a
/// transaction, and opens one; a STOP closes it with `P`, after the partial
/// byte it cut short if any; a clock outside a transaction changes nothing,
/// so bytes, `A` and `N` appear only between a START and the next STOP.
pub proof fn law_i2c_framing(s: I2cSettings, period: u64, st: I2cScan, ev: (u64, Event))
    ensures
        ({
            let nx = i2c_step(s, period, st, ev);
            &&& ev.1 is Start ==> nx.in_transaction && nx.words == st.words.push(
                token(
                    ev.0,
                    period,
                    if st.in_transaction {
                        "Sr"@
                    } else {
                        "S"@
                    },
                    WordKind::Data,
                ),
            )
            &&& ev.1 is Stop ==> !nx.in_transaction && nx.words.last() == token(ev.0, period, "P"@, WordKind::Data)
                && nx.words.len() == st.words.len() + (if st.pending.len() > 0 {
                2int
            } else {
                1int
            })
            &&& (ev.1 is Sample && !st.in_transaction) ==> nx == st
            &&& ev.1 is Sample ==> nx.in_transaction == st.in_transaction
        }),
{
}

/// After `evs` a transaction is open: some START has had no STOP since.
pub open spec fn open_after(evs: Seq<(u64, Event)>) -> bool {
    exists|j: int|
        0 <= j < evs.len() && (#[trigger] evs[j]).1 is Start && forall|l: int|
            j < l < evs.len() ==> !((#[trigger] evs[l]).1 is Stop)
}

/// The scan holds a transaction open exactly when a START has had no STOP
/// since.
proof fn lemma_open_after(s: I2cSettings, period: u64, evs: Seq<(u64, Event)>)
    ensures
        i2c_scan(s, period, evs).in_transaction == open_after(evs),
    decreases evs.len(),
{
    if evs.len() > 0 {
        let d = evs.drop_last();
        let n = evs.len();
        lemma_open_after(s, period, d);
        let last = evs[n - 1];
        assert(evs.last() == last);
        match last.1 {
            Event::Start => {
                assert(open_after(evs)) by {
                    assert(evs[n - 1].1 is Start);
                }
            },
            Event::Stop => {
                if open_after(evs) {
                    let j = choose|j: int|
                        0 <= j < evs.len() && (#[trigger] evs[j]).1 is Start && forall|l: int|
                            j < l < evs.len() ==> !((#[trigger] evs[l]).1 is Stop);
                    if j < n - 1 {
                        assert(!(evs[n - 1].1 is Stop));
                    }
                }
            },
            Event::Sample(_) => {
                if open_after(d) {
                    let j = choose|j: int|
                        0 <= j < d.len() && (#[trigger] d[j]).1 is Start && forall|l: int|
                            j < l < d.len() ==> !((#[trigger] d[l]).1 is Stop);
                    assert(evs[j] == d[j]);
                    assert forall|l: int| j < l < evs.len() implies !((#[trigger] evs[l]).1 is Stop) by {
                        if l < n - 1 {
                            assert(evs[l] == d[l]);
                        }
                    }
                }
                if open_after(evs) {
                    let j = choose|j: int|
                        0 <= j < evs.len() && (#[trigger] evs[j]).1 is Start && forall|l: int|
                            j < l < evs.len() ==> !((#[trigger] evs[l]).1 is Stop);
                    assert(j < n - 1);
                    assert(d[j] == evs[j]);
                    assert forall|l: int| j < l < d.len() implies !((#[trigger] d[l]).1 is Stop) by {
                        assert(d[l] == evs[l]);
                    }
                }
            },
        }
    }
}

/// Over a whole bus trace: each START gives one token at its time, `Sr` when
/// an earlier START has had no STOP since and `S` otherwise; each STOP gives
/// `P`; and a clock while no transaction is open gives nothing, so bytes, `A`
/// and `N` appear only between a START and the next STOP.
pub proof fn law_i2c_trace_framing(s: I2cSettings, period: u64, evs: Seq<(u64, Event)>, k: int)
    requires
        0 <= k < evs.len(),
    ensures
        ({
            let before = i2c_scan(s, period, evs.take(k));
            let after = i2c_scan(s, period, evs.take(k + 1));
            let ev = evs[k];
            &&& ev.1 is Start ==> after.words == before.words.push(
                token(
                    ev.0,
                    period,
                    if open_after(evs.take(k)) {
                        "Sr"@
                    } else {
                        "S"@
                    },
                    WordKind::Data,
                ),
            )
            &&& ev.1 is Stop ==> after.words.last() == token(ev.0, period, "P"@, WordKind::Data)
            &&& (ev.1 is Sample && !open_after(evs.take(k))) ==> after == before
            &&& after.in_transaction == open_after(evs.take(k + 1))
        }),
{
    let t1 = evs.take(k + 1);
    assert(t1.drop_last() =~= evs.take(k));
    assert(t1.last() == evs[k]);
    lemma_open_after(s, period, evs.take(k));
    lemma_open_after(s, period, t1);
    law_i2c_framing(s, period, i2c_scan(s, period, evs.take(k)), evs[k]);
}

/// Traffic outside a transaction is ignored: without a START condition the
/// bus never opens a transaction, and the only tokens are the `P` of each
/// STOP.
pub proof fn law_i2c_no_start_only_stops(s: I2cSettings, period: u64, evs: Seq<(u64, Event)>)
    requires
        forall|i: int| 0 <= i < evs.len() ==> !((#[trigger] evs[i]).1 is Start),
    ensures
        ({
            let st = i2c_scan(s, period, evs);
            &&& !st.in_transaction
            &&& st.pending.len() == 0
            &&& forall|i: int| 0 <= i < st.words.len() ==> (#[trigger] st.words[i]).text == "P"@
        }),
    decreases evs.len(),
{
    if evs.len() > 0 {
        let d = evs.drop_last();
        assert forall|i: int| 0 <= i < d.len() implies !((#[trigger] d[i]).1 is Start) by {
            assert(d[i] == evs[i]);
        }
        law_i2c_no_start_only_stops(s, period, d);
        let prev = i2c_scan(s, period, d);
        let nx = i2c_scan(s, period, evs);
        assert(!(evs[evs.len() - 1].1 is Start));
        assert forall|i: int| 0 <= i < nx.words.len() implies (#[trigger] nx.words[i]).text == "P"@ by {
            if i < prev.words.len() {
                assert(nx.words[i] == prev.words[i]);
            }
        }
    }
}

/// Tokens in order of their starts, each ending no earlier than it starts,
/// none starting after `last`; a byte in progress starts after every token.
pub open spec fn tokens_ordered(st: I2cScan, last: u64) -> bool {
    &&& forall|i: int, j: int|
        0 <= i < j < st.words.len() ==> (#[trigger] st.words[i]).start <= (#[trigger] st.words[j]).start
    &&& forall|i: int| 0 <= i < st.words.len() ==> (#[trigger] st.words[i]).start <= st.words[i].end
    &&& forall|i: int| 0 <= i < st.words.len() ==> (#[trigger] st.words[i]).start <= last
    &&& st.pending.len() > 0 ==> st.byte_start <= last
    &&& st.pending.len() > 0 ==> forall|i: int|
        0 <= i < st.words.len() ==> (#[trigger] st.words[i]).start <= st.byte_start
}

/// Appending a token that starts after every token, and ends no earlier,
/// keeps tokens ordered.
proof fn lemma_push_token(words: Seq<WordSpec>, w: WordSpec, last: u64)
    requires
        forall|i: int, j: int| 0 <= i < j < words.len() ==> (#[trigger] words[i]).start <= (#[trigger] words[j]).start,
        forall|i: int| 0 <= i < words.len() ==> (#[trigger] words[i]).start <= words[i].end,
        forall|i: int| 0 <= i < words.len() ==> (#[trigger] words[i]).start <= w.start,
        w.start <= w.end,
        w.start <= last,
    ensures
        ({
            let nw = words.push(w);
            &&& forall|i: int, j: int| 0 <= i < j < nw.len() ==> (#[trigger] nw[i]).start <= (#[trigger] nw[j]).start
            &&& forall|i: int| 0 <= i < nw.len() ==> (#[trigger] nw[i]).start <= nw[i].end
            &&& forall|i: int| 0 <= i < nw.len() ==> (#[trigger] nw[i]).start <= w.start
        }),
{
    let nw = words.push(w);
    assert forall|i: int, j: int| 0 <= i < j < nw.len() implies (#[trigger] nw[i]).start <= (
    #[trigger] nw[j]).start by {
        assert(nw[i] == words[i]);
        if j < words.len() {
            assert(nw[j] == words[j]);
        }
    }
    assert forall|i: int| 0 <= i < nw.len() implies (#[trigger] nw[i]).start <= nw[i].end && nw[i].start
        <= w.start by {
        if i < words.len() {
            assert(nw[i] == words[i]);
        }
    }
}

/// One event no earlier than the last keeps the tokens ordered, while every
/// time fits.
#[verifier::rlimit(30)]
proof fn lemma_step_ordered(s: I2cSettings, period: u64, st: I2cScan, ev: (u64, Event), last: u64)
    requires
        tokens_ordered(st, last),
        last <= ev.0,
        i2c_step(s, period, st, ev).fits,
    ensures
        tokens_ordered(i2c_step(s, period, st, ev), ev.0),
{
    let t = ev.0;
    let nx = i2c_step(s, period, st, ev);
    match ev.1 {
        Event::Start => {
            let w = token(t, period, if st.in_transaction { "Sr"@ } else { "S"@ }, WordKind::Data);
            lemma_push_token(st.words, w, t);
        },
        Event::Stop => {
            if st.pending.len() > 0 {
                let c = token(st.byte_start, period, partial_byte_text(st.pending.len()), WordKind::Error);
                lemma_push_token(st.words, c, t);
                let p = token(t, period, "P"@, WordKind::Data);
                lemma_push_token(st.words.push(c), p, t);
            } else {
                let p = token(t, period, "P"@, WordKind::Data);
                lemma_push_token(st.words, p, t);
            }
        },
        Event::Sample(bit) => {
            if !st.in_transaction {
            } else if st.pending.len() == 8 {
                let acked = bit == Bit::Zero;
                let w = token(
                    t,
                    period,
                    if acked { "A"@ } else { "N"@ },
                    if acked { WordKind::Data } else { WordKind::Error },
                );
                lemma_push_token(st.words, w, t);
            } else {
                let start = if st.pending.len() == 0 { t } else { st.byte_start };
                let bits = st.pending.push(bit);
                if bits.len() == 8 {
                    let w = WordSpec {
                        start,
                        end: t,
                        text: byte_text(s, bits, st.expect_address),
                        kind: if byte_unreliable(bits) { WordKind::Error } else { WordKind::Data },
                    };
                    lemma_push_token(st.words, w, t);
                }
            }
        },
    }
}

/// Over events in time order, a scan whose times all fit keeps its tokens
/// ordered.
proof fn lemma_scan_tokens_ordered(s: I2cSettings, period: u64, evs: Seq<(u64, Event)>)
    requires
        events_sorted(evs),
        i2c_scan(s, period, evs).fits,
    ensures
        tokens_ordered(i2c_scan(s, period, evs), if evs.len() > 0 { evs.last().0 } else { 0 }),
    decreases evs.len(),
{
    if evs.len() > 0 {
        let d = evs.drop_last();
        assert(events_sorted(d));
        lemma_scan_fits_prefix(s, period, evs, d.len() as int);
        assert(evs.take(d.len() as int) =~= d);
        lemma_scan_tokens_ordered(s, period, d);
        let last: u64 = if d.len() > 0 { d.last().0 } else { 0 };
        if d.len() > 0 {
            assert(d.last() == evs[d.len() - 1]);
        }
        lemma_step_ordered(s, period, i2c_scan(s, period, d), evs.last(), last);
    }
}

/// Over events in time order whose times all fit, the joined tokens come in
/// order of their starts, each ending no earlier than it starts.
proof fn lemma_raw_ordered(s: I2cSettings, p: u64, evs: Seq<(u64, Event)>)
    requires
        events_sorted(evs),
        i2c_raw(s, p, evs).fits,
    ensures
        ({
            let w = close_adjacent(i2c_raw(s, p, evs).words, p);
            &&& forall|i: int, j: int| 0 <= i < j < w.len() ==> (#[trigger] w[i]).start <= (#[trigger] w[j]).start
            &&& forall|i: int| 0 <= i < w.len() ==> (#[trigger] w[i]).start <= w[i].end
        }),
{
    let raw = i2c_raw(s, p, evs);
    let st = i2c_scan(s, p, evs);
    assert(st.fits);
    lemma_scan_tokens_ordered(s, p, evs);
    let last: u64 = if evs.len() > 0 { evs.last().0 } else { 0 };
    if st.pending.len() > 0 {
        let c = token(st.byte_start, p, partial_byte_text(st.pending.len()), WordKind::Error);
        lemma_push_token(st.words, c, last);
    }
    let rw = raw.words;
    let w = close_adjacent(rw, p);
    assert forall|i: int, j: int| 0 <= i < j < w.len() implies (#[trigger] w[i]).start <= (#[trigger] w[j]).start by {
        assert(w[i].start == rw[i].start);
        assert(w[j].start == rw[j].start);
    }
    assert forall|i: int| 0 <= i < w.len() implies (#[trigger] w[i]).start <= w[i].end by {
        assert(rw[i].start <= rw[i].end);
    }
}

/// The tokens of a bus traced in time order come in order of their starts,
/// each ending no earlier than it starts.
pub proof fn law_i2c_tokens_ordered(s: I2cSettings, scl: Seq<(u64, Bit)>, sda: Seq<(u64, Bit)>)
    requires
        time_sorted(scl),
        time_sorted(sda),
        i2c_trace_fits(s, scl, sda),
    ensures
        ({
            let w = i2c_words(s, scl, sda);
            &&& forall|i: int, j: int| 0 <= i < j < w.len() ==> (#[trigger] w[i]).start <= (#[trigger] w[j]).start
            &&& forall|i: int| 0 <= i < w.len() ==> (#[trigger] w[i]).start <= w[i].end
        }),
{
    let p = clock_period_spec(scl);
    law_events_sorted(condition_events(scl, sda) + sample_events(scl, sda, edges_to_spec(scl, Bit::One)));
    lemma_raw_ordered(s, p, bus_events(scl, sda));
}

/// The texts of error tokens: `N`, `x`, and `k of 8 bits` for a byte cut
/// short after `k` bits.
pub open spec fn error_text(t: Seq<char>) -> bool {
    t == "N"@ || t == "x"@ || exists|k: nat| 1 <= k <= 8 && t == #[trigger] partial_byte_text(k)
}

/// `b` to the power `m`.
spec fn power(b: nat, m: nat) -> nat
    decreases m,
{
    if m == 0 {
        1
    } else {
        b * power(b, (m - 1) as nat)
    }
}

/// A number below `base^m` has at most `m` digits.
proof fn lemma_digits_len_bound(n: nat, base: nat, upper: bool, m: nat)
    requires
        2 <= base,
        1 <= m,
        n < power(base, m),
    ensures
        digits(n, base, upper).len() <= m,
    decreases m,
{
    if n >= base {
        let pm = power(base, (m - 1) as nat);
        if m == 1 {
            assert(power(base, 0) == 1);
            assert(n < base * 1);
        }
        assert(n / base < pm) by (nonlinear_arith)
            requires
                n < base * pm,
                base >= 2,
        ;
        assert(n / base < n) by (nonlinear_arith)
            requires
                2 <= base <= n,
        ;
        lemma_digits_len_bound(n / base, base, upper, (m - 1) as nat);
    }
}

/// A single decimal digit is a digit character.
proof fn lemma_one_digit(n: nat)
    requires
        decimal(n).len() == 1,
    ensures
        '0' <= decimal(n)[0] <= '9',
{
    if n >= 10 {
        assert(n / 10 < n) by (nonlinear_arith)
            requires
                n >= 10,
        ;
        lemma_digits_len(n / 10, 10, true);
    }
}

/// The text of `v` below 256 in any format is at most `w` characters for a
/// width `w` of 7 or 8, and a one-character text is a decimal digit.
proof fn lemma_format_short(f: WordFormat, v: nat, w: nat)
    requires
        v < 256,
        w == 7 || w == 8,
        w == 7 ==> v < 128,
    ensures
        format_spec(f, v, w).len() <= w,
        format_spec(f, v, w).len() >= 1,
        format_spec(f, v, w).len() == 1 ==> '0' <= format_spec(f, v, w)[0] <= '9',
{
    reveal_with_fuel(power, 9);
    assert(power(16, 2) == 256);
    assert(power(10, 3) == 1000);
    assert(power(2, 8) == 256);
    assert(power(2, 7) == 128);
    lemma_digits_len(v, 16, true);
    lemma_digits_len(v, 10, true);
    lemma_digits_len(v, 2, true);
    lemma_digits_len_bound(v, 16, true, 2);
    lemma_digits_len_bound(v, 10, true, 3);
    lemma_digits_len_bound(v, 2, true, w);
    assert((w + 3) / 4 == 2);
    if f == WordFormat::Decimal && format_spec(f, v, w).len() == 1 {
        lemma_one_digit(v);
    }
}

/// A byte token's text, when the byte is reliable, is never an error text.
proof fn lemma_byte_text_not_error(s: I2cSettings, bits: Seq<Bit>, expect_address: bool)
    requires
        bits.len() == 8,
        !byte_unreliable(bits),
    ensures
        !error_text(byte_text(s, bits, expect_address)),
        byte_text(s, bits, expect_address).len() <= 9,
{
    let byte = msb_value(byte_bools(bits));
    assert(word_value(byte_bools(bits), BitOrder::MsbFirst) == byte);
    lemma_word_value_bound(byte_bools(bits), BitOrder::MsbFirst);
    lemma2_to64();
    let t = byte_text(s, bits, expect_address);
    if expect_address && s.split_address {
        lemma_format_short(s.format, byte / 2, 7);
        lemma_direction_texts();
    } else {
        lemma_format_short(s.format, byte, 8);
    }
    lemma_short_not_error(t);
}

/// The separator and direction letters are one character each.
proof fn lemma_direction_texts()
    ensures
        " "@.len() == 1,
        "W"@.len() == 1,
        "R"@.len() == 1,
{
    reveal_strlit(" ");
    reveal_strlit("W");
    reveal_strlit("R");
}

/// Every text `k of 8 bits` is at least eleven characters.
proof fn lemma_partial_long(k: nat)
    ensures
        partial_byte_text(k).len() >= 11,
{
    reveal_strlit(" of 8 bits");
    lemma_digits_len(k, 10, true);
}

/// A text of at most nine characters whose single character, if it has only
/// one, is neither `N` nor `x`, is no error text.
proof fn lemma_short_not_error(t: Seq<char>)
    requires
        t.len() <= 9,
        t.len() == 1 ==> t[0] != 'N' && t[0] != 'x',
    ensures
        !error_text(t),
{
    reveal_strlit("N");
    reveal_strlit("x");
    if exists|k: nat| 1 <= k <= 8 && t == #[trigger] partial_byte_text(k) {
        let k = choose|k: nat| 1 <= k <= 8 && t == #[trigger] partial_byte_text(k);
        lemma_partial_long(k);
    }
}

/// The texts of the framing tokens are no error texts, and `N` is one.
proof fn lemma_fixed_texts()
    ensures
        !error_text("S"@),
        !error_text("Sr"@),
        !error_text("P"@),
        !error_text("A"@),
        error_text("N"@),
{
    reveal_strlit("S");
    reveal_strlit("Sr");
    reveal_strlit("P");
    reveal_strlit("A");
    lemma_short_not_error("S"@);
    lemma_short_not_error("Sr"@);
    lemma_short_not_error("P"@);
    lemma_short_not_error("A"@);
}

/// A token is an error exactly when its text is an error text.
pub open spec fn kinds_match_texts(words: Seq<WordSpec>) -> bool {
    forall|i: int| 0 <= i < words.len() ==> ((#[trigger] words[i]).kind == WordKind::Error <==> error_text(words[i].text))
}

proof fn lemma_push_kind(words: Seq<WordSpec>, w: WordSpec)
    requires
        kinds_match_texts(words),
        w.kind == WordKind::Error <==> error_text(w.text),
    ensures
        kinds_match_texts(words.push(w)),
{
    let nw = words.push(w);
    assert forall|i: int| 0 <= i < nw.len() implies ((#[trigger] nw[i]).kind == WordKind::Error <==> error_text(
        nw[i].text,
    )) by {
        if i < words.len() {
            assert(nw[i] == words[i]);
        }
    }
}

/// Every event keeps token kinds matching their texts, and a byte in
/// progress never holds more than eight bits.
proof fn lemma_scan_kinds(s: I2cSettings, period: u64, evs: Seq<(u64, Event)>)
    ensures
        kinds_match_texts(i2c_scan(s, period, evs).words),
        i2c_scan(s, period, evs).pending.len() <= 8,
    decreases evs.len(),
{
    if evs.len() > 0 {
        lemma_scan_kinds(s, period, evs.drop_last());
        let st = i2c_scan(s, period, evs.drop_last());
        let ev = evs.last();
        let t = ev.0;
        lemma_fixed_texts();
        match ev.1 {
            Event::Start => {
                lemma_push_kind(
                    st.words,
                    token(t, period, if st.in_transaction { "Sr"@ } else { "S"@ }, WordKind::Data),
                );
            },
            Event::Stop => {
                let p = token(t, period, "P"@, WordKind::Data);
                if st.pending.len() > 0 {
                    let c = token(st.byte_start, period, partial_byte_text(st.pending.len()), WordKind::Error);
                    assert(error_text(c.text));
                    lemma_push_kind(st.words, c);
                    lemma_push_kind(st.words.push(c), p);
                } else {
                    lemma_push_kind(st.words, p);
                }
            },
            Event::Sample(bit) => {
                if st.in_transaction && st.pending.len() == 8 {
                    let acked = bit == Bit::Zero;
                    let w = token(
                        t,
                        period,
                        if acked { "A"@ } else { "N"@ },
                        if acked { WordKind::Data } else { WordKind::Error },
                    );
                    lemma_push_kind(st.words, w);
                } else if st.in_transaction {
                    let start = if st.pending.len() == 0 { t } else { st.byte_start };
                    let bits = st.pending.push(bit);
                    if bits.len() == 8 {
                        let w = WordSpec {
                            start,
                            end: t,
                            text: byte_text(s, bits, st.expect_address),
                            kind: if byte_unreliable(bits) { WordKind::Error } else { WordKind::Data },
                        };
                        if byte_unreliable(bits) {
                            reveal_strlit("x");
                        } else {
                            lemma_byte_text_not_error(s, bits, st.expect_address);
                        }
                        lemma_push_kind(st.words, w);
                    }
                }
            },
        }
    }
}

/// A bus token is drawn as an error exactly when its text is `N`, `x`, or
/// `k of 8 bits` for a byte cut short.
pub proof fn law_i2c_error_tokens(s: I2cSettings, scl: Seq<(u64, Bit)>, sda: Seq<(u64, Bit)>)
    ensures
        kinds_match_texts(i2c_words(s, scl, sda)),
{
    let p = clock_period_spec(scl);
    let evs = bus_events(scl, sda);
    lemma_scan_kinds(s, p, evs);
    let st = i2c_scan(s, p, evs);
    let raw = i2c_raw(s, p, evs);
    if st.pending.len() > 0 {
        let c = token(st.byte_start, p, partial_byte_text(st.pending.len()), WordKind::Error);
        assert(error_text(c.text));
        lemma_push_kind(st.words, c);
    }
    let w = i2c_words(s, scl, sda);
    assert forall|i: int| 0 <= i < w.len() implies ((#[trigger] w[i]).kind == WordKind::Error <==> error_text(
        w[i].text,
    )) by {
        assert(w[i].kind == raw.words[i].kind && w[i].text == raw.words[i].text);
    }
}

/// The scan only ever loses its fit.
proof fn lemma_scan_fits_prefix(s: I2cSettings, period: u64, evs: Seq<(u64, Event)>, k: int)
    requires
        0 <= k <= evs.len(),
        i2c_scan(s, period, evs).fits,
    ensures
        i2c_scan(s, period, evs.take(k)).fits,
    decreases evs.len(),
{
    if k < evs.len() {
        assert(evs.drop_last().take(k) =~= evs.take(k));
        lemma_scan_fits_prefix(s, period, evs.drop_last(), k);
    } else {
        assert(evs.take(k) =~= evs);
    }
}

/// The decode state as the decoding loop holds it.
pub open spec fn i2c_scan_matches(
    st: I2cScan,
    words: Seq<DecodedWord>,
    in_transaction: bool,
    bits: u32,
    acc: u64,
    unreliable: bool,
    byte_start: u64,
    expect_address: bool,
) -> bool {
    &&& words_view(words) == st.words
    &&& st.in_transaction == in_transaction
    &&& st.pending.len() == bits
    &&& acc == msb_value(byte_bools(st.pending))
    &&& unreliable == byte_unreliable(st.pending)
    &&& st.byte_start == byte_start
    &&& st.expect_address == expect_address
    &&& st.fits
}

/// Sorts events by time, keeping events at equal times in order.
fn sort_events(events: &Vec<(u64, Event)>) -> (out: Vec<(u64, Event)>)
    ensures
        out@ == sort_by_time(events@),
        forall|k: int| 0 <= k < out@.len() ==> exists|j: int| 0 <= j < events@.len() && #[trigger] out@[k] == events@[j],
{
    let mut out: Vec<(u64, Event)> = Vec::new();
    let mut i: usize = 0;
    while i < events.len()
        invariant
            i <= events@.len(),
            out@ == sort_by_time(events@.take(i as int)),
            forall|k: int| 0 <= k < out@.len() ==> exists|j: int| 0 <= j < events@.len() && #[trigger] out@[k] == events@[j],
        decreases events@.len() - i,
    {
        let e = events[i];
        let mut k = out.len();
        while k > 0 && out[k - 1].0 > e.0
            invariant
                k <= out@.len(),
                forall|m: int| k <= m < out@.len() ==> out@[m].0 > e.0,
            decreases k,
        {
            k = k - 1;
        }
        proof {
            assert(events@.take(i + 1).drop_last() =~= events@.take(i as int));
            lemma_insert_at(out@, e, k as int);
        }
        let ghost before = out@;
        out.insert(k, e);
        proof {
            assert(out@ =~= before.take(k as int).push(e) + before.skip(k as int));
            assert forall|m: int| 0 <= m < out@.len() implies exists|j: int| 0 <= j < events@.len() && #[trigger] out@[m] == events@[j] by {
                if m < k {
                    assert(out@[m] == before[m]);
                } else if m == k {
                    assert(out@[m] == events@[i as int]);
                } else {
                    assert(out@[m] == before[m - 1]);
                }
            }
        }
        i = i + 1;
    }
    assert(events@.take(events@.len() as int) =~= events@);
    out
}

/// Closes each token at the next one when they are adjacent.
fn close_adjacent_in_place(words: &mut Vec<DecodedWord>, period: u64)
    requires
        forall|i: int|
            0 <= i && i + 1 < old(words)@.len() && #[trigger] old(words)@[i].start < old(words)@[i + 1].start
                ==> 2 * period <= u64::MAX,
    ensures
        words_view(final(words)@) == close_adjacent(words_view(old(words)@), period),
        final(words)@.len() == old(words)@.len(),
{
    let ghost orig = words_view(words@);
    let ghost ow = words@;
    let n = words.len();
    let mut i: usize = 0;
    while i < n
        invariant
            n == words@.len(),
            orig.len() == n,
            ow.len() == n,
            orig == words_view(ow),
            forall|j: int|
                0 <= j && j + 1 < ow.len() && #[trigger] ow[j].start < ow[j + 1].start ==> 2 * period <= u64::MAX,
            i <= n,
            forall|k: int| 0 <= k < i ==> #[trigger] words_view(words@)[k] == close_adjacent(orig, period)[k],
            forall|k: int| i <= k < n ==> #[trigger] words_view(words@)[k] == orig[k],
        decreases n - i,
    {
        let ghost before = words@;
        assert(words_view(before)[i as int] == orig[i as int]);
        if i + 1 < n {
            let next_start = words[i + 1].start;
            let start = words[i].start;
            assert(words_view(before)[i + 1] == orig[i + 1]);
            assert(ow[i as int].start == start && ow[i + 1].start == next_start);
            if next_start > start && next_start - start <= period * 2 {
                let w = DecodedWord { start, end: next_start, text: words[i].text.clone(), kind: words[i].kind };
                words.set(i, w);
                assert forall|k: int| 0 <= k < n implies #[trigger] words_view(words@)[k] == (if k == i {
                    close_adjacent(orig, period)[k]
                } else {
                    words_view(before)[k]
                }) by {
                    assert(words@[k] == before.update(i as int, w)[k]);
                }
            }
        }
        i = i + 1;
    }
    assert(words_view(words@) =~= close_adjacent(orig, period));
}

fn partial_byte_word_text(bits: u32) -> (r: String)
    ensures
        r@ == partial_byte_text(bits as nat),
{
    let mut r = decimal_text(bits as u64);
    r.append(" of 8 bits");
    r
}

impl I2cSettings {
    #[must_use]
    pub fn lane_names(&self) -> (r: Vec<String>)
        ensures
            r@.len() == 1,
            r@[0]@ == "Bus"@,
    {
        let mut r: Vec<String> = Vec::new();
        r.push("Bus".to_string());
        r
    }

    /// Find the START/STOP conditions and the sampling edges.
    fn collect_events(&self, scl: &BitLane, sda: &BitLane) -> (events: Vec<(u64, Event)>)
        ensures
            (time_sorted(scl@) && time_sorted(sda@)) ==> events@ == condition_events(scl@, sda@)
                + sample_events(scl@, sda@, edges_to_spec(scl@, Bit::One)),
            forall|k: int|
                0 <= k < events@.len() ==> lane_has_time(scl@, #[trigger] events@[k].0) || lane_has_time(
                    sda@,
                    events@[k].0,
                ),
    {
        let ghost ok = time_sorted(scl@) && time_sorted(sda@);
        let ghost d = sda@;
        let mut events: Vec<(u64, Event)> = Vec::new();

        // START and STOP are SDA moving while SCL is high, which is the one
        // time SDA is otherwise required to be stable.
        let mut prev: Option<Bit> = None;
        let mut i: usize = 0;
        while i < sda.changes.len()
            invariant
                d == sda@,
                i <= d.len(),
                time_sorted(scl@) ==> events@ == condition_events(scl@, d.take(i as int)),
                prev == (if i == 0 {
                    None
                } else {
                    Some(d[i - 1].1)
                }),
                forall|k: int| 0 <= k < events@.len() ==> lane_has_time(d, #[trigger] events@[k].0),
            decreases d.len() - i,
        {
            let (t, v) = sda.changes[i];
            proof {
                assert(d.take(i + 1).drop_last() =~= d.take(i as int));
                assert(d[i as int].0 == t);
            }
            let moved = match prev {
                Some(p) => p != v,
                None => false,
            };
            if moved && scl.value_at(t) == Some(Bit::One) {
                match v {
                    Bit::Zero => events.push((t, Event::Start)),
                    Bit::One => events.push((t, Event::Stop)),
                    Bit::Invalid => {},
                }
            }
            prev = Some(v);
            i = i + 1;
        }
        proof {
            assert(d.take(d.len() as int) =~= d);
        }
        let ghost conds = events@;

        // A rising SCL edge latches a data bit only if SDA stays put for the
        // whole high phase. If SDA moves while SCL is high, that pulse carries
        // a START or STOP, and counting it as a bit leaves a spurious partial
        // byte in front of every STOP.
        let falls = scl.edges_to(Bit::Zero);
        let rises = scl.edges_to(Bit::One);
        let ghost rs = rises@;
        proof {
            lemma_edges_are_changes(scl@, Bit::One);
            if time_sorted(scl@) {
                lemma_edges_sorted(scl@, Bit::Zero);
            }
        }
        let mut j: usize = 0;
        assert(rs.take(0) =~= Seq::<u64>::empty());
        assert(conds + Seq::<(u64, Event)>::empty() =~= conds);
        while j < rises.len()
            invariant
                d == sda@,
                rs == rises@,
                rs == edges_to_spec(scl@, Bit::One),
                falls@ == edges_to_spec(scl@, Bit::Zero),
                time_sorted(scl@) ==> times_sorted(falls@),
                ok == (time_sorted(scl@) && time_sorted(sda@)),
                j <= rs.len(),
                ok ==> conds == condition_events(scl@, sda@),
                ok ==> events@ == conds + sample_events(scl@, d, rs.take(j as int)),
                forall|k: int|
                    0 <= k < rs.len() ==> exists|m: int| 0 <= m < scl@.len() && #[trigger] rs[k] == scl@[m].0,
                forall|k: int|
                    0 <= k < events@.len() ==> lane_has_time(scl@, #[trigger] events@[k].0) || lane_has_time(
                        d,
                        events@[k].0,
                    ),
            decreases rs.len() - j,
        {
            let t = rises[j];
            let fk = count_times_at_or_before(&falls, t);
            let nf = if fk < falls.len() {
                falls[fk]
            } else {
                u64::MAX
            };
            let first_after = sda.count_at_or_before(t);
            let moves = first_after < sda.changes.len() && sda.changes[first_after].0 < nf;
            proof {
                assert(rs.take(j + 1).drop_last() =~= rs.take(j as int));
                if ok {
                    lemma_first_greater_split(falls@, t, fk as int);
                    assert(nf == next_fall(scl@, t));
                    let ct = change_times(d);
                    assert forall|m: int| 0 <= m < first_after implies ct[m] <= t by {
                        assert(ct[m] == d[m].0);
                    }
                    assert forall|m: int| first_after <= m < ct.len() implies ct[m] > t by {
                        assert(ct[m] == d[m].0);
                    }
                    lemma_first_greater_split(ct, t, first_after as int);
                    if first_after < d.len() {
                        assert(ct[first_after as int] == d[first_after as int].0);
                    }
                    assert(moves == sda_moves(scl@, d, t));
                }
            }
            if !moves {
                let b = match sda.value_at(t) {
                    Some(b) => b,
                    None => Bit::Invalid,
                };
                let ghost before = events@;
                events.push((t, Event::Sample(b)));
                proof {
                    let m = choose|m: int| 0 <= m < scl@.len() && rs[j as int] == scl@[m].0;
                    assert(lane_has_time(scl@, t));
                    if ok {
                        assert(events@ =~= conds + sample_events(scl@, d, rs.take(j + 1)));
                    }
                    assert forall|k: int|
                        0 <= k < events@.len() implies lane_has_time(scl@, #[trigger] events@[k].0) || lane_has_time(
                            d,
                            events@[k].0,
                        ) by {
                        if k < before.len() {
                            assert(events@[k] == before[k]);
                        }
                    }
                }
            }
            j = j + 1;
        }
        proof {
            assert(rs.take(rs.len() as int) =~= rs);
        }
        events
    }

    /// The narrowest spacing of rising SCL edges, 1 without two of them.
    fn clock_period(scl: &BitLane) -> (p: u64)
        requires
            times_sorted(edges_to_spec(scl@, Bit::One)),
        ensures
            p == clock_period_spec(scl@),
    {
        let rises = scl.edges_to(Bit::One);
        let ghost e = rises@;
        if rises.len() < 2 {
            return 1;
        }
        let mut best = rises[1] - rises[0];
        proof {
            assert(e.take(2).drop_last() =~= e.take(1));
            assert(e.take(1).len() == 1);
            assert(min_step(e.take(1)) == None::<u64>);
            assert(e.take(2).last() == e[1]);
            assert(e.take(2)[0] == e[0]);
            assert(min_step(e.take(2)) == Some(best));
        }
        let mut i: usize = 2;
        while i < rises.len()
            invariant
                e == rises@,
                times_sorted(e),
                2 <= i <= e.len(),
                min_step(e.take(i as int)) == Some(best),
            decreases e.len() - i,
        {
            let d = rises[i] - rises[i - 1];
            proof {
                assert(e.take(i + 1).drop_last() =~= e.take(i as int));
            }
            if d < best {
                best = d;
            }
            i = i + 1;
        }
        assert(e.take(e.len() as int) =~= e);
        best
    }


    /// Decodes the bus into one row of tokens. Without both lines the row is
    /// empty.
    #[must_use]
    pub fn decode(&self, lanes: &[Option<BitLane>]) -> (out: Vec<DecodedLane>)
        requires
            i2c_fits(*self, lanes@),
        ensures
            i2c_decoded(*self, lanes@, out@),
    {
        let ghost ls = lanes@;
        let name = "Bus".to_string();
        let scl: &BitLane = if lanes.len() > SCL {
            match &lanes[SCL] {
                Some(l) => l,
                None => {
                    let mut out: Vec<DecodedLane> = Vec::new();
                    out.push(super::empty_lane(name));
                    return out;
                },
            }
        } else {
            let mut out: Vec<DecodedLane> = Vec::new();
            out.push(super::empty_lane(name));
            return out;
        };
        let sda: &BitLane = if lanes.len() > SDA {
            match &lanes[SDA] {
                Some(l) => l,
                None => {
                    let mut out: Vec<DecodedLane> = Vec::new();
                    out.push(super::empty_lane(name));
                    return out;
                },
            }
        } else {
            let mut out: Vec<DecodedLane> = Vec::new();
            out.push(super::empty_lane(name));
            return out;
        };
        assert(lane_of(ls, SCL as int) == Some(scl@));
        assert(lane_of(ls, SDA as int) == Some(sda@));
        let words = self.decode_bus(scl, sda);
        let mut out: Vec<DecodedLane> = Vec::new();
        out.push(DecodedLane { name, words });
        out
    }

    /// The tokens of the bus carried by `scl` and `sda`.
    fn decode_bus(&self, scl: &BitLane, sda: &BitLane) -> (words: Vec<DecodedWord>)
        requires
            i2c_trace_fits(*self, scl@, sda@),
        ensures
            time_sorted(scl@) && time_sorted(sda@) ==> words_view(words@) == i2c_words(*self, scl@, sda@),
    {
        let ghost ok = time_sorted(scl@) && time_sorted(sda@);
        let unsorted = self.collect_events(scl, sda);
        let events = sort_events(&unsorted);
        let ghost evs = events@;
        proof {
            if ok {
                assert(evs == bus_events(scl@, sda@));
            }
        }

        // Used to bound how wide a token is drawn, so a STOP does not stretch
        // across the idle gap until the next transaction.
        let clock_period = Self::clock_period(scl);
        let ghost p = clock_period;
        proof {
            if ok {
                lemma_scan_fits_prefix(*self, p, evs, 0);
            }
        }

        let mut words: Vec<DecodedWord> = Vec::new();
        let mut in_transaction = false;
        let mut bits: u32 = 0;
        let mut acc: u64 = 0;
        let mut unreliable = false;
        let mut byte_start: u64 = 0;
        // The first byte after a START is the address; the rest are data.
        let mut expect_address = false;

        let mut i: usize = 0;
        proof {
            assert(words_view(words@) =~= Seq::<WordSpec>::empty());
            assert(byte_bools(Seq::<Bit>::empty()) =~= Seq::<bool>::empty());
            lemma_pow2_pos(0);
        }
        while i < events.len()
            invariant
                evs == events@,
                ok == (time_sorted(scl@) && time_sorted(sda@)),
                i2c_trace_fits(*self, scl@, sda@),
                p == clock_period,
                p == clock_period_spec(scl@),
                ok ==> evs == bus_events(scl@, sda@),
                forall|k: int|
                    0 <= k < evs.len() ==> exists|j: int| 0 <= j < unsorted@.len() && #[trigger] evs[k] == unsorted@[j],
                forall|k: int|
                    0 <= k < unsorted@.len() ==> lane_has_time(scl@, #[trigger] unsorted@[k].0) || lane_has_time(
                        sda@,
                        unsorted@[k].0,
                    ),
                i <= evs.len(),
                bits <= 8,
                acc < pow2(bits as nat),
                ok ==> i2c_scan_matches(
                    i2c_scan(*self, p, evs.take(i as int)),
                    words@,
                    in_transaction,
                    bits,
                    acc,
                    unreliable,
                    byte_start,
                    expect_address,
                ),
                !ok ==> (bits > 0 ==> byte_start + 2 * p <= u64::MAX),
                !ok ==> (words@.len() > 0 ==> 2 * p <= u64::MAX),
            decreases evs.len() - i,
        {
            let (time, event) = events[i];
            let ghost prev = i2c_scan(*self, p, evs.take(i as int));
            let ghost before = words@;
            proof {
                assert(evs.take(i + 1).drop_last() =~= evs.take(i as int));
                assert(evs.take(i + 1).last() == evs[i as int]);
                if ok {
                    lemma_scan_fits_prefix(*self, p, evs, i + 1);
                } else {
                    let j = choose|j: int| 0 <= j < unsorted@.len() && evs[i as int] == unsorted@[j];
                    if lane_has_time(scl@, unsorted@[j].0) {
                        let m = choose|m: int| 0 <= m < scl@.len() && scl@[m].0 == unsorted@[j].0;
                        assert(scl@[m].0 + 2 * p <= u64::MAX);
                    } else {
                        let m = choose|m: int| 0 <= m < sda@.len() && sda@[m].0 == unsorted@[j].0;
                        assert(sda@[m].0 + 2 * p <= u64::MAX);
                    }
                    assert(time + 2 * p <= u64::MAX);
                }
            }
            match event {
                Event::Start => {
                    // A START inside a transaction is a repeated start, which
                    // is legal and keeps the bus held.
                    let text = if in_transaction {
                        "Sr".to_string()
                    } else {
                        "S".to_string()
                    };
                    let w = DecodedWord { start: time, end: time + clock_period, text, kind: WordKind::Data };
                    words.push(w);
                    proof {
                        assert(words_view(words@) =~= words_view(before).push(w@));
                    }
                    in_transaction = true;
                    expect_address = true;
                    bits = 0;
                    acc = 0;
                    unreliable = false;
                },
                Event::Stop => {
                    if bits > 0 {
                        let w = DecodedWord {
                            start: byte_start,
                            end: byte_start + clock_period,
                            text: partial_byte_word_text(bits),
                            kind: WordKind::Error,
                        };
                        words.push(w);
                    }
                    let ghost mid = words@;
                    let w = DecodedWord { start: time, end: time + clock_period, text: "P".to_string(), kind: WordKind::Data };
                    words.push(w);
                    proof {
                        assert(words_view(words@) =~= words_view(mid).push(w@));
                        if bits > 0 {
                            assert(words_view(mid) =~= words_view(before).push(mid[mid.len() - 1]@));
                        }
                    }
                    in_transaction = false;
                    bits = 0;
                    acc = 0;
                    unreliable = false;
                },
                Event::Sample(bit) => {
                    if in_transaction {
                        if bits == 8 {
                            // The ninth clock is the acknowledge from the receiver.
                            let acked = bit == Bit::Zero;
                            let w = DecodedWord {
                                start: time,
                                end: time + clock_period,
                                text: if acked {
                                    "A".to_string()
                                } else {
                                    "N".to_string()
                                },
                                kind: if acked {
                                    WordKind::Data
                                } else {
                                    WordKind::Error
                                },
                            };
                            words.push(w);
                            proof {
                                assert(words_view(words@) =~= words_view(before).push(w@));
                            }
                            bits = 0;
                            acc = 0;
                            unreliable = false;
                            expect_address = false;
                        } else {
                            if bits == 0 {
                                byte_start = time;
                            }
                            let ghost pend = prev.pending.push(bit);
                            proof {
                                if ok {
                                    assert(byte_bools(pend) =~= byte_bools(prev.pending).push(bit == Bit::One));
                                    assert(byte_bools(pend).drop_last() =~= byte_bools(prev.pending));
                                }
                            }
                            acc = push_bit(acc, bits, bit == Bit::One, BitOrder::MsbFirst);
                            if bit == Bit::Invalid {
                                // Keep the framing but remember the byte is unreliable.
                                unreliable = true;
                            }
                            bits = bits + 1;
                            proof {
                                if ok {
                                    if bit == Bit::Invalid {
                                        assert(pend[pend.len() - 1] == Bit::Invalid);
                                    }
                                    if byte_unreliable(pend) && bit != Bit::Invalid {
                                        let k = choose|k: int| 0 <= k < pend.len() && pend[k] == Bit::Invalid;
                                        assert(prev.pending[k] == Bit::Invalid);
                                    }
                                    if byte_unreliable(prev.pending) {
                                        let k = choose|k: int| 0 <= k < prev.pending.len() && prev.pending[k] == Bit::Invalid;
                                        assert(pend[k] == Bit::Invalid);
                                    }
                                }
                            }
                            if bits == 8 {
                                proof {
                                    lemma2_to64();
                                }
                                let byte = acc & 0xFF;
                                assert(byte == acc) by (bit_vector)
                                    requires
                                        acc < 256,
                                        byte == acc & 0xFF,
                                ;
                                let text = if unreliable {
                                    "x".to_string()
                                } else if expect_address && self.split_address {
                                    assert((byte >> 1u64) == byte / 2) by (bit_vector);
                                    assert((byte & 1u64) == byte % 2) by (bit_vector);
                                    let mut t = self.format.format(byte >> 1, 7);
                                    t.append(" ");
                                    if byte & 1 == 0 {
                                        t.append("W");
                                    } else {
                                        t.append("R");
                                    }
                                    t
                                } else {
                                    self.format.format(byte, 8)
                                };
                                let w = DecodedWord {
                                    start: byte_start,
                                    end: time,
                                    text,
                                    kind: if unreliable {
                                        WordKind::Error
                                    } else {
                                        WordKind::Data
                                    },
                                };
                                words.push(w);
                                proof {
                                    assert(words_view(words@) =~= words_view(before).push(w@));
                                }
                            }
                        }
                    }
                },
            }
            proof {
                lemma_pow2_pos(bits as nat);
            }
            i = i + 1;
        }
        proof {
            assert(evs.take(evs.len() as int) =~= evs);
        }

        if bits > 0 {
            let ghost mid = words@;
            let w = DecodedWord {
                start: byte_start,
                end: byte_start + clock_period,
                text: partial_byte_word_text(bits),
                kind: WordKind::Error,
            };
            words.push(w);
            proof {
                assert(words_view(words@) =~= words_view(mid).push(w@));
            }
        }

        // Close each token at the next one when they are adjacent, so a byte
        // runs up to its acknowledge rather than leaving a slot-shaped hole,
        // but leave real idle gaps between transactions alone.
        proof {
            if ok {
                let raw = i2c_raw(*self, p, evs).words;
                assert(words_view(words@) == raw);
                assert forall|k: int|
                    0 <= k && k + 1 < words@.len() && #[trigger] words@[k].start < words@[k + 1].start implies 2 * p
                        <= u64::MAX by {
                    assert(raw[k] == words_view(words@)[k]);
                    assert(raw[k + 1] == words_view(words@)[k + 1]);
                    assert(raw[k].start < raw[k + 1].start);
                }
            }
        }
        close_adjacent_in_place(&mut words, clock_period);
        words
    }

}

} // verus!
