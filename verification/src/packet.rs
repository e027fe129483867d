//! Classifications of a parsed packet and the borrowed form of a path
//! component.
use std::borrow::Cow;
use vstd::prelude::*;

verus! {

#[derive(Debug, Clone, Copy, PartialEq, Eq, Structural)]
#[non_exhaustive]
/// High-level APRS packet classification.
pub enum PacketType {
    /// A station position report.
    Location,
    /// A named object report.
    Object,
    /// A named item report.
    Item,
    /// An APRS message, acknowledgement, or rejection.
    Message,
    /// A telemetry metadata message such as `PARM.`, `UNIT.`, `EQNS.`, or `BITS.`.
    TelemetryMessage,
    /// A station status report.
    Status,
    /// A station-capabilities report.
    Capabilities,
    /// A generic beacon whose destination is `BEACON`.
    Beacon,
    /// A positionless or positioned weather report.
    Weather,
    /// A telemetry data report.
    Telemetry,
}

#[derive(Debug, Clone, Copy, PartialEq, Eq, Structural)]
#[non_exhaustive]
/// Position encoding found in an APRS packet.
pub enum Format {
    /// Human-readable degrees and decimal minutes.
    Uncompressed,
    /// Base-91 compressed coordinates.
    Compressed,
    /// Mic-E destination and information-field encoding.
    MicE,
    /// An NMEA GPS sentence.
    Nmea,
}

#[derive(Debug, PartialEq, Eq)]
/// A digipeater path component that may borrow its callsign from the input.
pub struct DigipeaterRef<'a> {
    /// Digipeater callsign, including an SSID when present.
    pub call: Cow<'a, str>,
    /// Whether a trailing `*` marks this path component as already used.
    pub was_digipeated: bool,
}

impl<'a> Clone for DigipeaterRef<'a> {
    fn clone(&self) -> (c: Self)
        ensures
            c.call@ == self.call@,
            c.was_digipeated == self.was_digipeated,
    {
        let call = match &self.call {
            Cow::Borrowed(text) => Cow::Borrowed(*text),
            Cow::Owned(text) => Cow::Owned(text.clone()),
        };
        DigipeaterRef { call, was_digipeated: self.was_digipeated }
    }
}

} // verus!
