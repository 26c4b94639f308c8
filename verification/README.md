# lagarith

The Lagarith lossless video codec, with its behaviour stated in contracts
and proved by Verus.

- `src/` is the library. `decoder` and `encoder` work on frames, `registry`
  holds the sessions that a media framework drives. Below them lie the
  channel codecs (`channel`, `channel_encoder`, `legacy_channel_encoder`), the
  range coders (`range_coder`, `legacy_range_coder`) over the arithmetic of
  `interval`, the frequency tables (`fibonacci`, `model`, `histogram`), the
  zero-run escapes (`rle`) and the predictors (`predict`, `predictor`).
- `round_trip` proves that what `encode_frame` writes, `decode_frame` reads
  back unchanged, for every pixel format and all dimensions that 32-bit
  offsets can address.
- `tests/` runs the library on concrete values.
- `app/` makes it a codec of the `oxideav-core` framework.
