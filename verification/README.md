# tiziano_params

Reads and writes the ISP tuning parameter file of Ingenic T31 camera
firmware (`gc2053-t31.bin`) and a textual, TOML-like form of it. The
library's functions are verified with Verus against a specification of the
file format and the text format. One item is trusted rather than proved:
`push_char` in `src/text.rs`, which calls std's `String::push` and whose
contract says that the character is appended.

- `src/header.rs` reads the parameter layout from the firmware's C header
  (`tiziano_params.h`); `src/schema.rs` computes its C alignment.
- `src/element.rs`, `src/crc.rs`, `src/profile.rs`, `src/blob.rs`: the
  binary file (little-endian elements, the word checksum, the day and night
  profiles, the version string and header).
- `src/text.rs`, `src/toml.rs`, `src/toml_read.rs`: the text form.
- `src/toml_laws.rs` and the `lemma_*` functions of `src/blob.rs` and
  `src/profile.rs` state and prove the round trips: decoding what was
  encoded, encoding what was decoded (the same file when its padding is
  zero and nothing follows the data, else the file with zeroed padding and
  a fresh checksum), and reading back the text written;
  `src/toml_fit.rs` proves that what reading the text gives can be
  encoded.
- `src/complete.rs` tells whether a profile holds what encoding needs.
- `app/main.rs` is the command-line tool (`decode`, `encode`, `info`); it
  reads the header from `gc2053/tiziano_params.h`.
