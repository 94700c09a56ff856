# astro_data_vault

Satellite orbit data: Two-Line Element sets read from text and validated,
and the records that a vault keeps of satellites and orbits.

- `src/record/tle.rs`: the TLE column layout, the checksum, and the
  validation of lines and of whole sets read from text, each stated as a
  spec function over the UTF-8 bytes or characters of the input.
- `src/text.rs`: whitespace, trimming and splitting text into lines.
- `src/record.rs`, `src/record/order.rs`: orbit formats, satellite and
  orbit records, and their equality and order.
- `app/`: the command line, the SQLite vault, serde copies of the records,
  and `std::io::Error` messages for validation errors.
