# frap

A parser and encoder for APRS packets in TNC2/APRS-IS text form, verified
with Verus.

`src/` is the verified library. It works on the bytes of the wire and gives
the values the wire carries: integers, text and raw readings. Every public
function states in its contract what it returns (for any current time, where
it reads the clock), and the laws that relate several functions are public
proof functions:

- `message::lemma_message_round_trip`: an encoded message parses back to
  itself;
- `frame_laws::lemma_kiss_round_trip`: a TNC2 frame converted to KISS and back
  is unchanged;
- `timestamp_laws`: an encoded timestamp decodes to the time it was made
  from;
- `position_laws`: an encoded (possibly ambiguous) coordinate and base-91
  digits decode to what was encoded;
- `callsign`: the passcode lies in `0..=32767`, ignores the SSID and letter
  case, and callsign normalization is idempotent;
- `error::lemma_error_code_names`: error code names are distinct lowercase
  identifiers;
- `duplicate_laws`: duplicate detection ignores third-party headers and
  trailing whitespace, and what it compares is normalized;
- `mice::lemma_mice_error_order`: which error a short Mic-E report gets;
- `aprs_is::lemma_read_line`: over any number of reads, a line is handed
  out without its terminator, or refused when it is longer than the limit.

Layout of `src/`: `envelope` (parser view, header and path), `body` (data type
identifier, status, capabilities, object and item headers), `message`,
`position`, `comment` (inline telemetry, `!DAO!`, PHG, course/speed), `mice`,
`nmea`, `telemetry`, `weather`, `ultw`, `timestamp`, `encode`, `frame` (KISS
and duplicate detection, with `duplicate_laws`), `callsign`, `aprs_is` (the line discipline of an
APRS-IS connection) and `text` (shared byte helpers and the few std string
conversions, stated as trusted wrappers).

`app/` is ordinary Rust around the library: it turns the decoded values into
coordinates and physical units (floating point), assembles the typed
`Packet`, encodes positions and objects from floats, and runs the Tokio
APRS-IS client.
