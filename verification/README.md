# libsurfer decoders, verified

The protocol decoders (SPI, I2C, UART), the role bindings that feed them, the
decode cache key, and the logic of the memory viewer and instruction
translators, written in Verus with their behaviour stated as contracts and
proved.

Layout:

- `src/` the verified library.
  - `decoders/` bit lanes, word formatting and the three decoders, each
    described by a spec function of the lanes it reads; `roles.rs` the signal
    roles and the name-based guess; `settings.rs` per-protocol settings and the
    cache key; `dialog.rs` the computations behind the settings dialog.
  - `memory_viewer.rs` index formatting and parsing, row filtering, jumps.
  - `translation.rs`, `translator_names.rs` what an instruction translator
    shows, and the order in which value formats are offered.
  - `text.rs` number rendering, parsing and small string utilities.
  - `wave_container.rs` signal references and their dotted paths.
- `tests/` tests run against the compiled library.
- `app/` the egui dialog and memory viewer window, the instruction
  translators on top of the instruction decoder crate, and serde/`Display`
  copies of the settings types.
