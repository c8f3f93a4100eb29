# obsj

Conversion and comparison of GNSS observations. Receiver packets (u-blox
RXM-RAWX, RTCM MSM7), RINEX 3 observation files and obsj (one JSON object per
line) are read into one model, from which RINEX and obsj are written.

The library under `src/` is written in Verus: its functions carry contracts,
and the proofs that they keep them. It needs no floating point. Measured values
are type parameters that pass through it; decoded numbers are handed over as
their bits, and numbers in RINEX files as their places in the text.

## Layout

- `obs`, `metadata`, `calendar`: the model. Times are ticks of 100 ns since the
  GPS epoch.
- `sink`, `arc`: where observations go, and how loss-of-lock flags become arcs.
- `rtcm`, `rtcm_decode`, `rtcm_time`, `msm`, `crc24q`: RTCM frames, epochs and
  messages. The `rtcm-rs` crate reads the messages.
- `ubx`, `ubx_decode`, `ubx_frame`: UBX frames and RXM-RAWX measurements. The
  `ublox` crate reads them.
- `rinexobs`, `rinex_write`, `rinex_read`, `columns`: RINEX files.
- `rinexio`, `rinex_backend`: the way through the `rinex` crate.
- `json`, `packetlog`: obsj records and packet logs.
- `diff`, `diffobs`: what differs between two streams, and how it is shown.
- `packet`, `week`, `cli`: what the commands decide.
- `roundtrip` proves that a RINEX file that was written is read back as it was.
  The steps stand in `regroup`, `reread`, `reheader`, `header_lines`,
  `header_facts`, `header_contents`, `header_fit`, `cells`, `labels` and
  `ascii_lines`.
- `text`, `keymap`, `freq`, `error`: what the others share.

`app/` holds the `convobs` and `diffobs` commands: files, serialisation
and the floating-point arithmetic on the numbers that the library decoded.
