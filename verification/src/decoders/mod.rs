//! Protocol decoders.
//!
//! A protocol decoder turns the transitions of several signals into a sequence
//! of words spanning time ranges, which are then drawn as their own rows in the
//! waveform view. A decoder consumes [`BitLane`]s of pre-extracted transitions
//! and returns [`DecodedLane`]s, so it can be checked without a waveform.

use vstd::prelude::*;

use vstd::arithmetic::power2::{lemma2_to64_rest, lemma_pow2_pos, lemma_pow2_strictly_increases, lemma_pow2_unfold, pow2};
use vstd::bits::{lemma_u64_pow2_no_overflow, lemma_u64_shl_is_mul};

use crate::text::{
    all_digits, chars_of, decimal, decimal_text, digits, digits_value, lemma_digits_round_trip,
    lemma_zero_pad_value, pad_zeros, render_digits, string_from_chars, zero_pad,
};

pub mod dialog;
pub mod i2c;
pub mod roles;
pub mod settings;
pub mod spi;
pub mod uart;

pub use roles::{Protocol, Role, RoleBindings};
pub use settings::{CachedDecode, DecodeKey, DecoderSettings};

verus! {

/// The level of a single signal at one moment. Anything that is not a clean 0
/// or 1 (x, z, or a multi-bit vector) is `Invalid`.
#[derive(Debug, Clone, Copy, PartialEq, Eq, Structural)]
pub enum Bit {
    Zero,
    One,
    Invalid,
}

impl Bit {
    #[must_use]
    pub fn is_high(self) -> (r: bool)
        ensures
            r == (self == Bit::One),
    {
        matches!(self, Bit::One)
    }
}

/// A single signal's transitions, as `(time, bit)` pairs sorted by time.
#[derive(Debug, Clone, Default)]
pub struct BitLane {
    pub changes: Vec<(u64, Bit)>,
}

impl View for BitLane {
    type V = Seq<(u64, Bit)>;

    open spec fn view(&self) -> Seq<(u64, Bit)> {
        self.changes@
    }
}

/// The transitions are in non-decreasing time order, as a lane's are meant to be.
pub open spec fn time_sorted(s: Seq<(u64, Bit)>) -> bool {
    forall|i: int, j: int| 0 <= i <= j < s.len() ==> s[i].0 <= s[j].0
}

/// Value of the lane at `t`: the value set by the last transition at or before
/// `t`, `None` if there is none.
pub open spec fn value_at_spec(s: Seq<(u64, Bit)>, t: u64) -> Option<Bit>
    decreases s.len(),
{
    if s.len() == 0 {
        None
    } else if s.last().0 <= t {
        Some(s.last().1)
    } else {
        value_at_spec(s.drop_last(), t)
    }
}

/// Times at which the lane moves to `to` from a different value, in order.
pub open spec fn edges_to_spec(s: Seq<(u64, Bit)>, to: Bit) -> Seq<u64>
    decreases s.len(),
{
    if s.len() < 2 {
        Seq::empty()
    } else {
        let rest = edges_to_spec(s.drop_last(), to);
        if s[s.len() - 2].1 != s.last().1 && s.last().1 == to {
            rest.push(s.last().0)
        } else {
            rest
        }
    }
}

/// A non-decreasing sequence of times.
pub open spec fn times_sorted(s: Seq<u64>) -> bool {
    forall|i: int, j: int| 0 <= i <= j < s.len() ==> s[i] <= s[j]
}

/// Transitions after index `k` all lie after `t`, so they do not affect the
/// value at `t`.
proof fn lemma_value_at_prefix(s: Seq<(u64, Bit)>, t: u64, k: int)
    requires
        0 <= k <= s.len(),
        forall|i: int| k <= i < s.len() ==> s[i].0 > t,
    ensures
        value_at_spec(s, t) == value_at_spec(s.take(k), t),
    decreases s.len(),
{
    if s.len() > k {
        assert(s.drop_last().take(k) =~= s.take(k));
        lemma_value_at_prefix(s.drop_last(), t, k);
    } else {
        assert(s.take(k) =~= s);
    }
}

/// Every edge time is the time of a transition, and edges come in transition order.
pub proof fn lemma_edges_sorted(s: Seq<(u64, Bit)>, to: Bit)
    requires
        time_sorted(s),
    ensures
        times_sorted(edges_to_spec(s, to)),
        forall|i: int|
            0 <= i < edges_to_spec(s, to).len() ==> exists|j: int|
                0 <= j < s.len() && #[trigger] edges_to_spec(s, to)[i] == s[j].0,
    decreases s.len(),
{
    if s.len() >= 2 {
        let r = s.drop_last();
        lemma_edges_sorted(r, to);
        let e = edges_to_spec(s, to);
        let er = edges_to_spec(r, to);
        assert forall|i: int| 0 <= i < er.len() implies er[i] <= s.last().0 by {
            let j = choose|j: int| 0 <= j < r.len() && er[i] == r[j].0;
            assert(r[j] == s[j]);
        }
        assert forall|i: int|
            0 <= i < e.len() implies exists|j: int| 0 <= j < s.len() && #[trigger] e[i] == s[j].0 by {
            if i < er.len() {
                let j = choose|j: int| 0 <= j < r.len() && er[i] == r[j].0;
                assert(r[j] == s[j]);
            } else {
                assert(e[i] == s[s.len() - 1].0);
            }
        }
    }
}

impl BitLane {
    #[must_use]
    pub fn new(changes: Vec<(u64, Bit)>) -> (r: Self)
        ensures
            r@ == changes@,
    {
        Self { changes }
    }

    /// Number of transitions at or before `time`, found by binary search:
    /// meaningful only for a lane sorted by time.
    pub fn count_at_or_before(&self, time: u64) -> (k: usize)
        ensures
            k <= self@.len(),
            time_sorted(self@) ==> forall|i: int| 0 <= i < k ==> self@[i].0 <= time,
            time_sorted(self@) ==> forall|i: int| k <= i < self@.len() ==> self@[i].0 > time,
    {
        let ghost s = self@;
        let mut lo: usize = 0;
        let mut hi: usize = self.changes.len();
        while lo < hi
            invariant
                s == self@,
                lo <= hi <= s.len(),
                time_sorted(s) ==> forall|i: int| 0 <= i < lo ==> s[i].0 <= time,
                time_sorted(s) ==> forall|i: int| hi <= i < s.len() ==> s[i].0 > time,
            decreases hi - lo,
        {
            let mid = lo + (hi - lo) / 2;
            if self.changes[mid].0 <= time {
                lo = mid + 1;
            } else {
                hi = mid;
            }
        }
        lo
    }

    /// Value of the lane at `time`, i.e. the value set by the most recent
    /// transition at or before `time`. `None` before the first transition.
    ///
    /// The lookup is a binary search, so it is meaningful only for a lane whose
    /// transitions are sorted by time.
    #[must_use]
    pub fn value_at(&self, time: u64) -> (r: Option<Bit>)
        ensures
            time_sorted(self@) ==> r == value_at_spec(self@, time),
    {
        let ghost s = self@;
        let idx = self.count_at_or_before(time);
        proof {
            if time_sorted(s) {
                lemma_value_at_prefix(s, time, idx as int);
                if idx > 0 {
                    assert(s.take(idx as int).last() == s[idx - 1]);
                }
            }
        }
        if idx > 0 {
            Some(self.changes[idx - 1].1)
        } else {
            None
        }
    }

    /// Times at which the lane transitions to `to`, in order.
    #[must_use]
    pub fn edges_to(&self, to: Bit) -> (out: Vec<u64>)
        ensures
            out@ == edges_to_spec(self@, to),
    {
        let ghost s = self@;
        let mut out: Vec<u64> = Vec::new();
        let mut prev: Option<Bit> = None;
        let mut i: usize = 0;
        while i < self.changes.len()
            invariant
                s == self@,
                i <= s.len(),
                out@ == edges_to_spec(s.take(i as int), to),
                prev == (if i == 0 { None } else { Some(s[i - 1].1) }),
            decreases s.len() - i,
        {
            let (t, v) = self.changes[i];
            proof {
                assert(s.take(i + 1).drop_last() =~= s.take(i as int));
            }
            let changed = match prev {
                Some(p) => p != v,
                None => false,
            };
            if changed && v == to {
                out.push(t);
            }
            prev = Some(v);
            i = i + 1;
        }
        assert(s.take(s.len() as int) =~= s);
        out
    }
}

/// What a decoded word represents. Drives how it is drawn.
#[derive(Debug, Clone, Copy, PartialEq, Eq, Structural)]
pub enum WordKind {
    /// Successfully decoded payload.
    Data,
    /// The decoder could not make sense of this span, e.g. a word truncated by
    /// chip select going inactive, or an `x`/`z` sampled on a data line.
    Error,
}

/// One decoded word occupying the half-open time range `[start, end)`.
#[derive(Debug, Clone, PartialEq, Eq)]
pub struct DecodedWord {
    pub start: u64,
    pub end: u64,
    pub text: String,
    pub kind: WordKind,
}

/// The mathematical content of a decoded word.
pub struct WordSpec {
    pub start: u64,
    pub end: u64,
    pub text: Seq<char>,
    pub kind: WordKind,
}

impl View for DecodedWord {
    type V = WordSpec;

    open spec fn view(&self) -> WordSpec {
        WordSpec { start: self.start, end: self.end, text: self.text@, kind: self.kind }
    }
}

/// The contents of a sequence of decoded words.
pub open spec fn words_view(ws: Seq<DecodedWord>) -> Seq<WordSpec> {
    ws.map_values(|w: DecodedWord| w@)
}

/// A row of decoded output. A decoder may produce several: SPI produces one for
/// MOSI and one for MISO.
#[derive(Debug, Clone, PartialEq, Eq)]
pub struct DecodedLane {
    pub name: String,
    pub words: Vec<DecodedWord>,
}

/// The contents of a decoded row: its name and its words.
pub struct LaneSpec {
    pub name: Seq<char>,
    pub words: Seq<WordSpec>,
}

impl View for DecodedLane {
    type V = LaneSpec;

    open spec fn view(&self) -> LaneSpec {
        LaneSpec { name: self.name@, words: words_view(self.words@) }
    }
}

/// Each word is stretched to end where the next one starts; the last keeps its end.
pub open spec fn stretch_words(ws: Seq<WordSpec>) -> Seq<WordSpec> {
    Seq::new(
        ws.len(),
        |i: int|
            if i + 1 < ws.len() {
                WordSpec { start: ws[i].start, end: ws[i + 1].start, text: ws[i].text, kind: ws[i].kind }
            } else {
                ws[i]
            },
    )
}

/// Stretching words that each start no later than they end, and end no
/// later than any later one starts, gives blocks that each end where the next
/// starts.
pub proof fn lemma_stretch_contiguous(ws: Seq<WordSpec>)
    requires
        forall|i: int| 0 <= i < ws.len() ==> (#[trigger] ws[i]).start <= ws[i].end,
        forall|i: int, j: int| 0 <= i < j < ws.len() ==> (#[trigger] ws[i]).end <= (#[trigger] ws[j]).start,
    ensures
        ({
            let w = stretch_words(ws);
            &&& forall|i: int| 0 <= i < w.len() ==> (#[trigger] w[i]).start <= w[i].end
            &&& forall|i: int| 0 <= i && i + 1 < w.len() ==> (#[trigger] w[i]).end == w[i + 1].start
        }),
{
    let w = stretch_words(ws);
    assert forall|i: int| 0 <= i < w.len() implies (#[trigger] w[i]).start <= w[i].end by {
        if i + 1 < ws.len() {
            assert(ws[i].start <= ws[i].end);
            assert(ws[i].end <= ws[i + 1].start);
        }
    }
}

/// Sets each word's end to the start of the next one.
pub fn stretch_in_place(words: &mut Vec<DecodedWord>)
    ensures
        words_view(final(words)@) == stretch_words(words_view(old(words)@)),
        final(words)@.len() == old(words)@.len(),
{
    let ghost orig = words_view(words@);
    let n = words.len();
    let mut i: usize = 0;
    while i < n
        invariant
            n == words@.len(),
            orig.len() == n,
            i <= n,
            forall|k: int| 0 <= k < i ==> #[trigger] words_view(words@)[k] == stretch_words(orig)[k],
            forall|k: int| i <= k < n ==> #[trigger] words_view(words@)[k] == orig[k],
        decreases n - i,
    {
        let ghost before = words@;
        if i + 1 < n {
            let next_start = words[i + 1].start;
            let w = DecodedWord {
                start: words[i].start,
                end: next_start,
                text: words[i].text.clone(),
                kind: words[i].kind,
            };
            assert(words_view(before)[i + 1] == orig[i + 1]);
            assert(words_view(before)[i as int] == orig[i as int]);
            words.set(i, w);
            assert forall|k: int| 0 <= k < n implies #[trigger] words_view(words@)[k] == (if k == i {
                stretch_words(orig)[k]
            } else {
                words_view(before)[k]
            }) by {
                assert(words@[k] == before.update(i as int, w)[k]);
            }
        } else {
            assert(words_view(before)[i as int] == orig[i as int]);
        }
        i = i + 1;
    }
    assert(words_view(words@) =~= stretch_words(orig));
}

/// An empty row named `name`.
pub fn empty_lane(name: String) -> (r: DecodedLane)
    ensures
        r@.name == name@,
        r@.words == Seq::<WordSpec>::empty(),
{
    let r = DecodedLane { name, words: Vec::new() };
    assert(r@.words =~= Seq::<WordSpec>::empty());
    r
}

/// Bit order within a decoded word.
#[derive(Debug, Clone, Copy, PartialEq, Eq, Structural)]
pub enum BitOrder {
    MsbFirst,
    LsbFirst,
}

impl Default for BitOrder {
    fn default() -> (r: Self)
        ensures
            r == BitOrder::MsbFirst,
    {
        BitOrder::MsbFirst
    }
}

/// How decoded words are rendered as text.
#[derive(Debug, Clone, Copy, PartialEq, Eq, Structural)]
pub enum WordFormat {
    Hex,
    Decimal,
    Binary,
    Ascii,
}

impl Default for WordFormat {
    fn default() -> (r: Self)
        ensures
            r == WordFormat::Hex,
    {
        WordFormat::Hex
    }
}

/// Number of hex digits that cover `bits` bits.
pub open spec fn hex_width(bits: nat) -> nat {
    (bits + 3) / 4
}

/// Upper-case hex text of `value`, zero-padded to `width` digits.
pub open spec fn hex_text(value: nat, width: nat) -> Seq<char> {
    zero_pad(digits(value, 16, true), width)
}

/// Printable ASCII: the graphic characters and the space.
pub open spec fn is_printable_ascii(value: nat) -> bool {
    0x20 <= value <= 0x7e
}

/// The text of `value`, `bits` wide, in `format`.
pub open spec fn format_spec(format: WordFormat, value: nat, bits: nat) -> Seq<char> {
    match format {
        WordFormat::Hex => hex_text(value, hex_width(bits)),
        WordFormat::Decimal => decimal(value),
        WordFormat::Binary => zero_pad(digits(value, 2, true), bits),
        WordFormat::Ascii => if is_printable_ascii(value) {
            seq!['\'', value as char, '\'']
        } else {
            hex_text(value, 2)
        },
    }
}

/// In ASCII format every printable character, space through tilde
/// (0x20..=0x7E), letters, digits and punctuation alike, is shown quoted as
/// itself; any other value is shown as two or more upper-case hex digits.
pub proof fn law_ascii_format(value: nat, bits: nat)
    ensures
        0x20 <= value <= 0x7e ==> format_spec(WordFormat::Ascii, value, bits) == seq!['\'', value as char, '\''],
        !(0x20 <= value <= 0x7e) ==> format_spec(WordFormat::Ascii, value, bits) == zero_pad(
            digits(value, 16, true),
            2,
        ),
{
}

/// Upper-case digits hold no lower-case letter.
proof fn lemma_upper_digits(n: nat, base: nat)
    requires
        2 <= base <= 16,
    ensures
        forall|i: int| 0 <= i < digits(n, base, true).len() ==> !('a' <= #[trigger] digits(n, base, true)[i] <= 'z'),
    decreases n,
{
    let ds = digits(n, base, true);
    if n >= base {
        assert(n / base < n && n % base < base) by (nonlinear_arith)
            requires
                2 <= base <= n,
        ;
        lemma_upper_digits(n / base, base);
        let prefix = digits(n / base, base, true);
        assert forall|i: int| 0 <= i < ds.len() implies !('a' <= #[trigger] ds[i] <= 'z') by {
            if i < prefix.len() {
                assert(ds[i] == prefix[i]);
            }
        }
    }
}

/// Hexadecimal, binary and decimal text reads back as the value it shows,
/// hexadecimal in upper case, and the padded formats are as wide as their
/// width asks or the value needs.
pub proof fn law_word_format_reads_back(value: nat, bits: nat)
    ensures
        ({
            let t = format_spec(WordFormat::Hex, value, bits);
            &&& all_digits(t, 16)
            &&& digits_value(t, 16) == value
            &&& forall|i: int| 0 <= i < t.len() ==> !('a' <= #[trigger] t[i] <= 'z')
            &&& t.len() == if digits(value, 16, true).len() >= hex_width(bits) {
                digits(value, 16, true).len()
            } else {
                hex_width(bits)
            }
        }),
        ({
            let t = format_spec(WordFormat::Binary, value, bits);
            &&& all_digits(t, 2)
            &&& digits_value(t, 2) == value
            &&& t.len() == if digits(value, 2, true).len() >= bits {
                digits(value, 2, true).len()
            } else {
                bits
            }
        }),
        all_digits(format_spec(WordFormat::Decimal, value, bits), 10),
        digits_value(format_spec(WordFormat::Decimal, value, bits), 10) == value,
{
    lemma_digits_round_trip(value, 16, true);
    lemma_zero_pad_value(digits(value, 16, true), hex_width(bits), 16);
    lemma_upper_digits(value, 16);
    let hd = digits(value, 16, true);
    let t = format_spec(WordFormat::Hex, value, bits);
    assert forall|i: int| 0 <= i < t.len() implies !('a' <= #[trigger] t[i] <= 'z') by {
        if hd.len() < hex_width(bits) {
            let k = hex_width(bits) - hd.len();
            if i >= k {
                assert(t[i] == hd[i - k]);
            }
        }
    }
    lemma_digits_round_trip(value, 2, true);
    lemma_zero_pad_value(digits(value, 2, true), bits, 2);
    lemma_digits_round_trip(value, 10, true);
}

impl WordFormat {
    /// Render `value` of `bits` width.
    #[must_use]
    pub fn format(self, value: u64, bits: u32) -> (s: String)
        ensures
            s@ == format_spec(self, value as nat, bits as nat),
    {
        match self {
            WordFormat::Hex => {
                let width = ((bits as u64 + 3) / 4) as usize;
                string_from_chars(&pad_zeros(render_digits(value, 16, true), width))
            },
            WordFormat::Decimal => decimal_text(value),
            WordFormat::Binary => string_from_chars(&pad_zeros(render_digits(value, 2, true), bits as usize)),
            WordFormat::Ascii => {
                if 0x20 <= value && value <= 0x7e {
                    let c = (value as u8) as char;
                    let mut v: Vec<char> = Vec::new();
                    v.push('\'');
                    v.push(c);
                    v.push('\'');
                    assert(v@ =~= seq!['\'', value as char, '\'']);
                    string_from_chars(&v)
                } else {
                    string_from_chars(&pad_zeros(render_digits(value, 16, true), 2))
                }
            },
        }
    }
}

/// Value of bits received most significant first.
pub open spec fn msb_value(bits: Seq<bool>) -> nat
    decreases bits.len(),
{
    if bits.len() == 0 {
        0
    } else {
        msb_value(bits.drop_last()) * 2 + (if bits.last() { 1nat } else { 0nat })
    }
}

/// Value of bits received least significant first.
pub open spec fn lsb_value(bits: Seq<bool>) -> nat
    decreases bits.len(),
{
    if bits.len() == 0 {
        0
    } else {
        lsb_value(bits.drop_last()) + (if bits.last() { pow2((bits.len() - 1) as nat) } else { 0nat })
    }
}

/// Value of a word's bits, in the order they were received.
pub open spec fn word_value(bits: Seq<bool>, order: BitOrder) -> nat {
    match order {
        BitOrder::MsbFirst => msb_value(bits),
        BitOrder::LsbFirst => lsb_value(bits),
    }
}

/// A word of `n` bits has a value below `2^n`.
pub proof fn lemma_word_value_bound(bits: Seq<bool>, order: BitOrder)
    ensures
        word_value(bits, order) < pow2(bits.len()),
    decreases bits.len(),
{
    lemma_pow2_pos(bits.len());
    if bits.len() > 0 {
        lemma_word_value_bound(bits.drop_last(), order);
        lemma_pow2_unfold(bits.len());
    }
}

/// Appends one received bit to the value accumulated so far.
pub fn push_bit(acc: u64, count: u32, bit: bool, order: BitOrder) -> (r: u64)
    requires
        count < 64,
        acc < pow2(count as nat),
    ensures
        r as nat == (match order {
            BitOrder::MsbFirst => acc * 2 + (if bit { 1nat } else { 0nat }),
            BitOrder::LsbFirst => acc + (if bit { pow2(count as nat) } else { 0nat }),
        }),
        r < pow2(count as nat + 1),
{
    let b: u64 = if bit { 1 } else { 0 };
    proof {
        lemma_u64_pow2_no_overflow(count as nat);
        if count < 63 {
            lemma_pow2_strictly_increases(count as nat, 63);
        }
        lemma2_to64_rest();
        lemma_pow2_unfold(count as nat + 1);
    }
    match order {
        BitOrder::MsbFirst => {
            assert(acc < 0x8000_0000_0000_0000u64);
            assert(((acc << 1u64) | b) == acc * 2 + b) by (bit_vector)
                requires
                    acc < 0x8000_0000_0000_0000u64,
                    b <= 1,
            ;
            (acc << 1u64) | b
        },
        BitOrder::LsbFirst => {
            let c = count as u64;
            proof {
                lemma_u64_shl_is_mul(1u64, c);
                lemma_u64_shl_is_mul(b, c);
            }
            assert((acc | (b << c)) == acc + (b << c)) by (bit_vector)
                requires
                    acc < (1u64 << c),
                    b <= 1,
                    c < 64,
            ;
            acc | (b << c)
        },
    }
}

/// The first element of `s` later than `t`, scanning from the front.
pub open spec fn first_greater(s: Seq<u64>, t: u64) -> Option<u64>
    decreases s.len(),
{
    if s.len() == 0 {
        None
    } else if s[0] > t {
        Some(s[0])
    } else {
        first_greater(s.drop_first(), t)
    }
}

/// The times of a lane's transitions.
pub open spec fn change_times(s: Seq<(u64, Bit)>) -> Seq<u64> {
    s.map_values(|c: (u64, Bit)| c.0)
}

/// Where `s` splits into elements at or before `t` and elements after it,
/// the first element after `t` is the one at the split.
pub proof fn lemma_first_greater_split(s: Seq<u64>, t: u64, k: int)
    requires
        0 <= k <= s.len(),
        forall|i: int| 0 <= i < k ==> s[i] <= t,
        forall|i: int| k <= i < s.len() ==> s[i] > t,
    ensures
        first_greater(s, t) == (if k < s.len() {
            Some(s[k])
        } else {
            None
        }),
    decreases s.len(),
{
    if s.len() > 0 && k > 0 {
        lemma_first_greater_split(s.drop_first(), t, k - 1);
    }
}

/// Number of elements at or before `t`, found by binary search: meaningful
/// only for a sorted sequence.
pub fn count_times_at_or_before(v: &Vec<u64>, t: u64) -> (k: usize)
    ensures
        k <= v@.len(),
        times_sorted(v@) ==> forall|i: int| 0 <= i < k ==> v@[i] <= t,
        times_sorted(v@) ==> forall|i: int| k <= i < v@.len() ==> v@[i] > t,
{
    let mut lo: usize = 0;
    let mut hi: usize = v.len();
    while lo < hi
        invariant
            lo <= hi <= v@.len(),
            times_sorted(v@) ==> forall|i: int| 0 <= i < lo ==> v@[i] <= t,
            times_sorted(v@) ==> forall|i: int| hi <= i < v@.len() ==> v@[i] > t,
        decreases hi - lo,
    {
        let mid = lo + (hi - lo) / 2;
        if v[mid] <= t {
            lo = mid + 1;
        } else {
            hi = mid;
        }
    }
    lo
}

/// Every edge time is the time of some transition.
pub proof fn lemma_edges_are_changes(s: Seq<(u64, Bit)>, to: Bit)
    ensures
        forall|i: int|
            0 <= i < edges_to_spec(s, to).len() ==> exists|j: int|
                0 <= j < s.len() && #[trigger] edges_to_spec(s, to)[i] == s[j].0,
    decreases s.len(),
{
    if s.len() >= 2 {
        let r = s.drop_last();
        lemma_edges_are_changes(r, to);
        let e = edges_to_spec(s, to);
        let er = edges_to_spec(r, to);
        assert forall|i: int|
            0 <= i < e.len() implies exists|j: int| 0 <= j < s.len() && #[trigger] e[i] == s[j].0 by {
            if i < er.len() {
                let j = choose|j: int| 0 <= j < r.len() && er[i] == r[j].0;
                assert(r[j] == s[j]);
            } else {
                assert(e[i] == s[s.len() - 1].0);
            }
        }
    }
}

} // verus!
