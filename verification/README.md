# etch341

A flash programmer for the CH341A USB bridge: SPI NOR flash and 24Cxx
I²C EEPROMs, with chip detection (JEDEC id, SFDP), status-register and
SFDP reports, range erase, page-aligned programming with read-back
verify, blank checks, byte diffs and dump inspection.

The library under `src/` is written in Verus and verified: every
operation states, in its contract, the exact bus traffic it produces
(on failure, the part of it that went out before the error), what it
returns for it, when it succeeds without touching the bus (an empty
range), that it succeeds whenever the bus is known to answer every
transfer it plans (a scripted bus), and the events it reports on its
progress channel (a start, an update per block, a finish on success
and on failure). The laws of
the library are proof functions, among them

- `flash::lemma_readback_after_write`, `flash::lemma_write_stores_data`:
  on a NOR flash behaving as its datasheet says, a write leaves the data
  at its address and the read-back returns it;
- `eeprom::lemma_read_after_write`: the same for a 24Cxx EEPROM;
- `ops::lemma_program_chunks`, `i2c::lemma_write_pieces`: writes never
  cross a page and carry exactly the data;
- `diff::lemma_diff_fully_shown`, `diff::lemma_diff_rows`: a diff hides
  no differing byte, and its data rows are row-aligned and ascend.

Layout:

- `src/spi.rs`, `src/i2c.rs`: the bus protocols over transport traits;
- `src/ch341.rs`, `src/usb.rs`, `src/programmer.rs`: the CH341A and
  its USB calls;
- `src/ops.rs`, `src/i2c_ops.rs`, `src/detect.rs`: the operations;
- `src/sfdp.rs`, `src/ifd.rs`, `src/inspect.rs`, `src/diff.rs`: parsers
  and byte tools;
- `src/report.rs`, `src/cli.rs`, `src/present.rs`, `src/views.rs`: text
  and view state for the front ends;
- `src/flash.rs`, `src/eeprom.rs`: chip models and the read-after-write
  laws;
- `app/`: the command line (argument parsing, files, terminal, USB host
  services, chip catalogues on disk).

The chip catalogues are read at run time from `chips/chips.toml` and
`chips/i2c_chips.toml` (in `$ETCH341_CHIPS_DIR`, beside the executable,
or in the working directory).
