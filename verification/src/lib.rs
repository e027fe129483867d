//! A parser and encoder for APRS packets in TNC2/APRS-IS text form, with
//! KISS frame conversion, duplicate-detection helpers, callsign validation
//! and APRS-IS passcode calculation.
//!
//! The decoders work on the parser's ASCII view of a packet and give the
//! values of the wire (integers, text and raw readings); converting them to
//! coordinates and physical units is left to the caller.
use vstd::prelude::*;

pub mod error;
pub mod text;
pub mod callsign;
pub mod frame;
pub mod frame_laws;
pub mod timestamp;
pub mod encode;
pub mod envelope;
pub mod packet;
pub mod body;
pub mod message;
pub mod position;
pub mod comment;
pub mod mice;
pub mod ultw;
pub mod nmea;
pub mod telemetry;
pub mod weather;
pub mod aprs_is;
pub mod timestamp_laws;
pub mod position_laws;
pub mod decode_laws;
pub mod path_laws;
pub mod extension_laws;
pub mod report_laws;
pub mod body_laws;
pub mod duplicate_laws;

pub use error::{ErrorCode, ParseError};
pub use callsign::{aprs_passcode, check_ax25_call, mice_message};
pub use callsign::mice_message as mice_mbits_to_message;
pub use frame::{aprs_duplicate_parts, count_digihops, kiss_to_tnc2, tnc2_to_kiss};
pub use encode::{encode_message, encode_timestamp, make_timestamp, EncodePositionOptions, Message, TimestampFormat};
pub use envelope::{Digipeater, ParseOptions};
pub use packet::{DigipeaterRef, Format, PacketType};
pub use timestamp::AprsTimestamp;

verus! {

} // verus!
