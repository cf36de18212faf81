//! Per-protocol settings, and the key under which a decode result is cached.

use vstd::prelude::*;

use super::i2c::{default_i2c, i2c_decoded, i2c_fits, I2cSettings};
use super::roles::{BindingsView, Protocol, RoleBindings};
use super::spi::{default_spi, spi_decoded, SpiSettings};
use super::uart::{default_uart, uart_decoded, uart_fits, UartSettings};
use super::{BitLane, DecodedLane};

verus! {

/// Per-protocol decoder settings.
#[derive(Debug, Clone, Copy, PartialEq, Eq, Structural)]
pub enum DecoderSettings {
    Spi(SpiSettings),
    I2c(I2cSettings),
    Uart(UartSettings),
}

/// The protocol that settings of each kind configure.
pub open spec fn protocol_of(s: DecoderSettings) -> Protocol {
    match s {
        DecoderSettings::Spi(_) => Protocol::Spi,
        DecoderSettings::I2c(_) => Protocol::I2c,
        DecoderSettings::Uart(_) => Protocol::Uart,
    }
}

/// The default settings of each protocol.
pub open spec fn default_settings(p: Protocol) -> DecoderSettings {
    match p {
        Protocol::Spi => DecoderSettings::Spi(default_spi()),
        Protocol::I2c => DecoderSettings::I2c(default_i2c()),
        Protocol::Uart => DecoderSettings::Uart(default_uart()),
    }
}

/// Names of the rows each protocol's decoder produces, in order.
pub open spec fn lane_names_spec(p: Protocol) -> Seq<Seq<char>> {
    match p {
        Protocol::Spi => seq!["MOSI"@, "MISO"@],
        Protocol::I2c => seq!["Bus"@],
        Protocol::Uart => seq!["Data"@],
    }
}

/// The lanes can be decoded with these settings without arithmetic overflow.
pub open spec fn decode_fits(s: DecoderSettings, lanes: Seq<Option<BitLane>>) -> bool {
    match s {
        DecoderSettings::Spi(_) => true,
        DecoderSettings::I2c(i) => i2c_fits(i, lanes),
        DecoderSettings::Uart(u) => uart_fits(u, lanes),
    }
}

/// What decoding the lanes with these settings produces.
pub open spec fn decoded_by(s: DecoderSettings, lanes: Seq<Option<BitLane>>, out: Seq<DecodedLane>) -> bool {
    match s {
        DecoderSettings::Spi(x) => spi_decoded(x, lanes, out),
        DecoderSettings::I2c(x) => i2c_decoded(x, lanes, out),
        DecoderSettings::Uart(x) => uart_decoded(x, lanes, out),
    }
}

pub open spec fn lane_names_of(out: Seq<DecodedLane>) -> Seq<Seq<char>> {
    out.map_values(|l: DecodedLane| l@.name)
}

/// The default settings made for a protocol configure that protocol.
pub proof fn law_defaults_keep_protocol(p: Protocol)
    ensures
        protocol_of(default_settings(p)) == p,
{
}

/// The rows a decode produces carry, in order, the names announced for its
/// protocol before any data is available.
pub proof fn law_rows_named_as_announced(s: DecoderSettings, lanes: Seq<Option<BitLane>>, out: Seq<DecodedLane>)
    requires
        decoded_by(s, lanes, out),
    ensures
        lane_names_of(out) == lane_names_spec(protocol_of(s)),
{
    assert(lane_names_of(out) =~= lane_names_spec(protocol_of(s)));
}

impl DecoderSettings {
    #[must_use]
    pub fn for_protocol(protocol: Protocol) -> (r: Self)
        ensures
            r == default_settings(protocol),
    {
        match protocol {
            Protocol::Spi => DecoderSettings::Spi(SpiSettings::default()),
            Protocol::I2c => DecoderSettings::I2c(I2cSettings::default()),
            Protocol::Uart => DecoderSettings::Uart(UartSettings::default()),
        }
    }

    #[must_use]
    pub fn protocol(&self) -> (r: Protocol)
        ensures
            r == protocol_of(*self),
    {
        match self {
            DecoderSettings::Spi(_) => Protocol::Spi,
            DecoderSettings::I2c(_) => Protocol::I2c,
            DecoderSettings::Uart(_) => Protocol::Uart,
        }
    }

    /// Decode `lanes`, which are indexed to match [`Protocol::roles`].
    /// Entries are `None` for unbound roles.
    #[must_use]
    pub fn decode(&self, lanes: &[Option<BitLane>]) -> (out: Vec<DecodedLane>)
        requires
            decode_fits(*self, lanes@),
        ensures
            decoded_by(*self, lanes@, out@),
            lane_names_of(out@) == lane_names_spec(protocol_of(*self)),
    {
        let out = match self {
            DecoderSettings::Spi(s) => s.decode(lanes),
            DecoderSettings::I2c(s) => s.decode(lanes),
            DecoderSettings::Uart(s) => s.decode(lanes),
        };
        assert(lane_names_of(out@) =~= lane_names_spec(protocol_of(*self)));
        out
    }

    /// Names of the rows this decoder produces, for laying out the item before
    /// any waveform data is available.
    #[must_use]
    pub fn lane_names(&self) -> (r: Vec<String>)
        ensures
            r@.map_values(|s: String| s@) == lane_names_spec(protocol_of(*self)),
    {
        let r = match self {
            DecoderSettings::Spi(s) => s.lane_names(),
            DecoderSettings::I2c(s) => s.lane_names(),
            DecoderSettings::Uart(s) => s.lane_names(),
        };
        assert(r@.map_values(|s: String| s@) =~= lane_names_spec(protocol_of(*self)));
        r
    }
}

/// Everything a decode result depends on.
///
/// A cached result stays valid exactly while this compares equal, so anything
/// that can change the output has to be represented here.
#[derive(Debug, Clone, PartialEq)]
pub struct DecodeKey {
    /// Bumped when a waveform is reloaded, so results from the previous file
    /// are never reused for the new one.
    pub generation: u64,
    pub settings: DecoderSettings,
    pub bindings: RoleBindings,
    /// Whether each bound signal had data available when the decode ran.
    pub loaded: Vec<bool>,
}

/// The contents of a decode key.
pub struct DecodeKeyView {
    pub generation: u64,
    pub settings: DecoderSettings,
    pub bindings: BindingsView,
    pub loaded: Seq<bool>,
}

impl View for DecodeKey {
    type V = DecodeKeyView;

    open spec fn view(&self) -> DecodeKeyView {
        DecodeKeyView {
            generation: self.generation,
            settings: self.settings,
            bindings: self.bindings@,
            loaded: self.loaded@,
        }
    }
}

impl DecodeKey {
    /// Whether both keys describe the same inputs.
    pub fn same_as(&self, other: &DecodeKey) -> (r: bool)
        ensures
            r == (self@ == other@),
    {
        if self.generation != other.generation || self.settings != other.settings {
            return false;
        }
        if !self.bindings.same_as(&other.bindings) {
            return false;
        }
        if self.loaded.len() != other.loaded.len() {
            assert(self@.loaded.len() != other@.loaded.len());
            return false;
        }
        let mut i: usize = 0;
        while i < self.loaded.len()
            invariant
                self.loaded@.len() == other.loaded@.len(),
                i <= self.loaded@.len(),
                forall|k: int| 0 <= k < i ==> #[trigger] self.loaded@[k] == other.loaded@[k],
            decreases self.loaded@.len() - i,
        {
            if self.loaded[i] != other.loaded[i] {
                return false;
            }
            i = i + 1;
        }
        assert(self.loaded@ =~= other.loaded@);
        true
    }
}

/// A decode result together with the inputs it was produced from.
pub struct CachedDecode {
    pub key: DecodeKey,
    pub lanes: Vec<DecodedLane>,
}

impl CachedDecode {
    /// The cached result may be reused exactly when it was produced from the
    /// same inputs.
    #[must_use]
    pub fn is_valid_for(&self, key: &DecodeKey) -> (r: bool)
        ensures
            r == (self.key@ == key@),
    {
        self.key.same_as(key)
    }
}

} // verus!
